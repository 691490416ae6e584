use vstd::prelude::*;
use crate::environment::EnvModel;
use crate::error::ScanError;
use crate::expression::ExprModel;
use crate::interpreter::{spec_eval, stringify_text, EvalOutcome};
use crate::parser::{
    sp_assignment, sp_comparison, sp_comparison_tail, sp_equality, sp_equality_tail, sp_expression,
    sp_factor, sp_factor_tail, sp_primary, sp_term, sp_term_tail, sp_unary, toks_wf, tok_at, PExpr,
};
use crate::render::{digit_char, digits_text};
use crate::scanner::{
    digit_of, digits_end, digits_value, is_digit, single_kind, spec_scan, spec_scan_rest,
};
use crate::token::{SpecValue, TokenModel, TokenType};

verus! {

proof fn lemma_digits_text_shape(n: nat)
    ensures
        digits_text(n).len() >= 1,
        forall|k: int| 0 <= k < digits_text(n).len() ==> is_digit(#[trigger] digits_text(n)[k]),
    decreases n,
{
    if n >= 10 {
        lemma_digits_text_shape(n / 10);
        assert forall|k: int| 0 <= k < digits_text(n).len() implies is_digit(
            #[trigger] digits_text(n)[k],
        ) by {
            if k < digits_text(n).len() - 1 {
                assert(digits_text(n)[k] == digits_text(n / 10)[k]);
            } else {
                assert(digits_text(n)[k] == digit_char(n % 10));
            }
        }
    }
}

/// The value of a digit run does not depend on characters outside it.
proof fn lemma_digits_value_congruent(s1: Seq<char>, s2: Seq<char>, i: int, j: int)
    requires
        0 <= i,
        j <= s1.len(),
        j <= s2.len(),
        forall|k: int| i <= k < j ==> s1[k] == s2[k],
    ensures
        digits_value(s1, i, j) == digits_value(s2, i, j),
    decreases j - i,
{
    if i < j {
        lemma_digits_value_congruent(s1, s2, i, j - 1);
    }
}

/// Reading back the canonical digits of a number gives the number.
proof fn lemma_digits_text_value(n: nat)
    ensures
        digits_value(digits_text(n), 0, digits_text(n).len() as int) == n,
    decreases n,
{
    let s = digits_text(n);
    if n < 10 {
        assert(digits_value(s, 0, 0) == 0);
        assert(digit_of(digit_char(n)) == n);
    } else {
        lemma_digits_text_value(n / 10);
        let t = digits_text(n / 10);
        let len = s.len() as int;
        assert(s == t.push(digit_char(n % 10)));
        lemma_digits_value_congruent(s, t, 0, len - 1);
        assert(digits_value(s, 0, len) == digits_value(s, 0, len - 1) * 10 + digit_of(
            s[len - 1],
        ));
        assert(digit_of(digit_char(n % 10)) == n % 10);
        assert((n / 10) * 10 + n % 10 == n) by {
            vstd::arithmetic::div_mod::lemma_fundamental_div_mod(n as int, 10);
        }
    }
}

/// A run of digits with nothing after it scans to its own end.
proof fn lemma_all_digits_end(src: Seq<char>, i: int)
    requires
        0 <= i <= src.len(),
        forall|k: int| i <= k < src.len() ==> is_digit(#[trigger] src[k]),
    ensures
        digits_end(src, i) == src.len(),
    decreases src.len() - i,
{
    if i < src.len() {
        lemma_all_digits_end(src, i + 1);
    }
}

/// Round trip for numeric values: the canonical display text of a
/// non-negative number scans, without errors, to exactly one number token
/// holding the same number, and parsing that text as an expression gives a
/// literal that evaluates to the same number in every scope chain.  (A
/// negative number displays as a minus sign before its digits, which parses
/// back as negation; a string displays unquoted and is not an expression at
/// all, so the law is stated for the number tokens that carry the round
/// trip.)
#[verifier::rlimit(100)]
#[verifier::spinoff_prover]
pub proof fn lemma_number_round_trip(n: int, env: EnvModel)
    requires
        0 <= n <= i64::MAX,
    ensures
        ({
            let txt = stringify_text(SpecValue::Num(n));
            let scanned = spec_scan(txt);
            &&& scanned.errors == Seq::<ScanError>::empty()
            &&& scanned.tokens.len() == 2
            &&& scanned.tokens[0].kind == TokenType::NUMBER
            &&& scanned.tokens[0].literal == Some(SpecValue::Num(n))
            &&& sp_expression(scanned.tokens, 0) == (PExpr {
                res: Ok::<ExprModel, crate::error::ParseError>(
                    ExprModel::Literal(SpecValue::Num(n)),
                ),
                pos: 1,
            })
            &&& spec_eval(ExprModel::Literal(SpecValue::Num(n)), env) == (EvalOutcome {
                res: Ok::<SpecValue, crate::error::RuntimeErrorModel>(SpecValue::Num(n)),
                env,
            })
        }),
{
    let txt = stringify_text(SpecValue::Num(n));
    assert(txt == digits_text(n as nat));
    lemma_digits_text_shape(n as nat);
    lemma_digits_text_value(n as nat);
    lemma_all_digits_end(txt, 0);
    let c = txt[0];
    assert(is_digit(c));
    assert(single_kind(c) is None);
    let num_tok = TokenModel {
        kind: TokenType::NUMBER,
        lexeme: txt.subrange(0, txt.len() as int),
        literal: Some(SpecValue::Num(n)),
        line: 1,
    };
    let rest = spec_scan_rest(txt, txt.len() as int, 1);
    assert(rest.tokens == seq![
        TokenModel { kind: TokenType::EOF, lexeme: Seq::empty(), literal: None, line: 1 },
    ]);
    let scanned = spec_scan(txt);
    assert(scanned.tokens == seq![num_tok] + rest.tokens);
    assert(scanned.tokens =~= seq![num_tok, rest.tokens[0]]);
    assert(scanned.errors =~= Seq::<ScanError>::empty());
    let toks = scanned.tokens;
    assert(toks_wf(toks));
    assert(tok_at(toks, 0) == num_tok);
    assert(tok_at(toks, 1).kind == TokenType::EOF);
    let lit = ExprModel::Literal(SpecValue::Num(n));
    assert(sp_primary(toks, 0) == (PExpr {
        res: Ok::<ExprModel, crate::error::ParseError>(lit),
        pos: 1,
    })) by {
        reveal_with_fuel(sp_primary, 1);
    }
    assert(sp_unary(toks, 0) == sp_primary(toks, 0)) by {
        reveal_with_fuel(sp_unary, 1);
    }
    assert(sp_factor_tail(toks, 1, lit) == (PExpr {
        res: Ok::<ExprModel, crate::error::ParseError>(lit),
        pos: 1,
    })) by {
        reveal_with_fuel(sp_factor_tail, 1);
    }
    assert(sp_factor(toks, 0) == sp_factor_tail(toks, 1, lit)) by {
        reveal_with_fuel(sp_factor, 1);
    }
    assert(sp_term_tail(toks, 1, lit) == (PExpr {
        res: Ok::<ExprModel, crate::error::ParseError>(lit),
        pos: 1,
    })) by {
        reveal_with_fuel(sp_term_tail, 1);
    }
    assert(sp_term(toks, 0) == sp_term_tail(toks, 1, lit)) by {
        reveal_with_fuel(sp_term, 1);
    }
    assert(sp_comparison_tail(toks, 1, lit) == (PExpr {
        res: Ok::<ExprModel, crate::error::ParseError>(lit),
        pos: 1,
    })) by {
        reveal_with_fuel(sp_comparison_tail, 1);
    }
    assert(sp_comparison(toks, 0) == sp_comparison_tail(toks, 1, lit)) by {
        reveal_with_fuel(sp_comparison, 1);
    }
    assert(sp_equality_tail(toks, 1, lit) == (PExpr {
        res: Ok::<ExprModel, crate::error::ParseError>(lit),
        pos: 1,
    })) by {
        reveal_with_fuel(sp_equality_tail, 1);
    }
    assert(sp_equality(toks, 0) == sp_equality_tail(toks, 1, lit)) by {
        reveal_with_fuel(sp_equality, 1);
    }
    assert(sp_assignment(toks, 0) == sp_equality(toks, 0)) by {
        reveal_with_fuel(sp_assignment, 1);
    }
    assert(sp_expression(toks, 0) == sp_assignment(toks, 0)) by {
        reveal_with_fuel(sp_expression, 1);
    }
}

} // verus!
