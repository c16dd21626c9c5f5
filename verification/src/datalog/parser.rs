use vstd::prelude::*;
use crate::text::{push_all, unicode_uppercase, char_is_uppercase, nat_digits, string_from_chars, string_chars, str_to_string, push_string, u64_digits};
use crate::datalog::types::{Value, SpecValue, Fact, SpecFact, Term, SpecTerm, Predicate, SpecPredicate, Rule, SpecRule, values_view, terms_view, preds_view, facts_view, rules_view};
use crate::datalog::lexer::{Token, SpecToken, tokens_view, tokenize, tokenize_spec};

verus! {

// ---------------------------------------------------------------------------
// Specification of the grammar, over the token sequence and a position in it.
// ---------------------------------------------------------------------------

pub open spec fn lift_vals(
    acc: Seq<SpecValue>,
    r: Result<(Seq<SpecValue>, int), Seq<char>>,
) -> Result<(Seq<SpecValue>, int), Seq<char>> {
    match r {
        Ok((rest, k)) => Ok((acc + rest, k)),
        Err(e) => Err(e),
    }
}

/// The arguments of a fact from position `j` up to and including its `)`.
pub open spec fn fact_args(ts: Seq<SpecToken>, j: int) -> Result<(Seq<SpecValue>, int), Seq<char>>
    decreases ts.len() - j,
{
    if j < 0 || j >= ts.len() {
        Ok((seq![], j))
    } else {
        match ts[j] {
            SpecToken::RParen => Ok((seq![], j + 1)),
            SpecToken::Str(s) => lift_vals(seq![SpecValue::Str(s)], fact_args(ts, j + 1)),
            SpecToken::Int(n) => lift_vals(seq![SpecValue::Int(n)], fact_args(ts, j + 1)),
            SpecToken::Ident(s) => lift_vals(seq![SpecValue::Str(s)], fact_args(ts, j + 1)),
            SpecToken::Comma => fact_args(ts, j + 1),
            _ => Err("Unexpected token: "@ + token_name(ts[j])),
        }
    }
}

/// A fact starting at position `i`: `name(args).`, with the position after the dot.
pub open spec fn fact_at(ts: Seq<SpecToken>, i: int) -> Result<(SpecFact, int), Seq<char>> {
    if i < 0 || i >= ts.len() {
        Err("Unexpected end of input"@)
    } else if !(ts[i] is Ident) {
        Err("Expected predicate name"@)
    } else if i + 1 >= ts.len() || !(ts[i + 1] is LParen) {
        Err("Expected '(' after predicate"@)
    } else {
        match fact_args(ts, i + 2) {
            Err(e) => Err(e),
            Ok((args, k)) => if k >= ts.len() || !(ts[k] is Dot) {
                Err("Expected '.' after fact"@)
            } else {
                Ok((SpecFact { predicate: ts[i]->Ident_0, args }, k + 1))
            },
        }
    }
}

/// Every fact of the token sequence from position `i` on, skipping other tokens.
pub open spec fn facts_from(ts: Seq<SpecToken>, i: int) -> Result<Seq<SpecFact>, Seq<char>>
    decreases ts.len() - i,
{
    if i < 0 || i >= ts.len() {
        Ok(seq![])
    } else if ts[i] is Ident && i + 1 < ts.len() && ts[i + 1] is LParen {
        match fact_at(ts, i) {
            Err(e) => Err(e),
            Ok((f, k)) => if i < k && k <= ts.len() {
                match facts_from(ts, k) {
                    Err(e) => Err(e),
                    Ok(rest) => Ok(seq![f] + rest),
                }
            } else {
                Err("Expected '.' after fact"@)
            },
        }
    } else {
        facts_from(ts, i + 1)
    }
}

/// Whether an identifier names a variable (it starts with an upper-case letter, in the
/// Unicode sense of `char::is_uppercase`).
pub open spec fn is_var_name(s: Seq<char>) -> bool {
    s.len() > 0 && unicode_uppercase(s[0])
}

pub open spec fn anon_prefix() -> Seq<char> {
    seq!['_', 'a', 'n', 'o', 'n', '_']
}

/// The name given to the `n`-th `_` of a predicate.
pub open spec fn anon_name(n: nat) -> Seq<char> {
    anon_prefix() + nat_digits(n)
}

pub open spec fn lift_terms(
    acc: Seq<SpecTerm>,
    r: Result<(Seq<SpecTerm>, int), Seq<char>>,
) -> Result<(Seq<SpecTerm>, int), Seq<char>> {
    match r {
        Ok((rest, k)) => Ok((acc + rest, k)),
        Err(e) => Err(e),
    }
}

/// The arguments of a predicate from position `j` up to and including its `)`;
/// Each `_` becomes a variable of its own, numbered by the `_` before it since the start `rs`
/// of its rule, so that no two wildcards of a rule share a name.
pub open spec fn pred_args(ts: Seq<SpecToken>, j: int, rs: int) -> Result<(Seq<SpecTerm>, int), Seq<char>>
    decreases ts.len() - j,
{
    if j < 0 || j >= ts.len() {
        Ok((seq![], j))
    } else {
        match ts[j] {
            SpecToken::RParen => Ok((seq![], j + 1)),
            SpecToken::Ident(s) => if s == seq!['_'] {
                lift_terms(seq![SpecTerm::Var(anon_name(wild_count(ts, rs, j)))], pred_args(ts, j + 1, rs))
            } else if is_var_name(s) {
                lift_terms(seq![SpecTerm::Var(s)], pred_args(ts, j + 1, rs))
            } else {
                lift_terms(seq![SpecTerm::Const(SpecValue::Str(s))], pred_args(ts, j + 1, rs))
            },
            SpecToken::Str(s) => lift_terms(
                seq![SpecTerm::Const(SpecValue::Str(s))],
                pred_args(ts, j + 1, rs),
            ),
            SpecToken::Int(n) => lift_terms(
                seq![SpecTerm::Const(SpecValue::Int(n))],
                pred_args(ts, j + 1, rs),
            ),
            SpecToken::Comma => pred_args(ts, j + 1, rs),
            _ => Err("Unexpected token in predicate: "@ + token_name(ts[j])),
        }
    }
}

/// The number of `_` among the tokens `ts[a..b]`.
pub open spec fn wild_count(ts: Seq<SpecToken>, a: int, b: int) -> nat
    decreases b - a,
{
    if b <= a {
        0
    } else {
        wild_count(ts, a, b - 1) + if ts[b - 1] == SpecToken::Ident(seq!['_']) { 1nat } else { 0nat }
    }
}

proof fn lemma_wild_count_grows(ts: Seq<SpecToken>, a: int, b: int, c: int)
    requires
        a <= b <= c,
    ensures
        wild_count(ts, a, b) <= wild_count(ts, a, c),
    decreases c - b,
{
    if b < c {
        lemma_wild_count_grows(ts, a, b, c - 1);
    }
}

/// Two wildcards of one rule (both after the rule's start `rs`) get different variables: no
/// two `_` of a rule have to hold the same value.
pub proof fn law_wildcards_are_distinct(ts: Seq<SpecToken>, rs: int, j1: int, j2: int)
    requires
        rs <= j1 < j2,
        ts[j1] == SpecToken::Ident(seq!['_']),
    ensures
        anon_name(wild_count(ts, rs, j1)) != anon_name(wild_count(ts, rs, j2)),
{
    lemma_wild_count_grows(ts, rs, j1 + 1, j2);
    let a = wild_count(ts, rs, j1);
    let b = wild_count(ts, rs, j2);
    crate::text::lemma_nat_digits_injective(a, b);
    if anon_name(a) == anon_name(b) {
        assert(anon_name(a).skip(6) =~= nat_digits(a));
        assert(anon_name(b).skip(6) =~= nat_digits(b));
    }
}

/// The right-hand side of `=` or `!=`.
pub open spec fn operand_term(t: SpecToken) -> Option<SpecTerm> {
    match t {
        SpecToken::Ident(s) => if is_var_name(s) {
            Some(SpecTerm::Var(s))
        } else {
            Some(SpecTerm::Const(SpecValue::Str(s)))
        },
        SpecToken::Str(s) => Some(SpecTerm::Const(SpecValue::Str(s))),
        SpecToken::Int(n) => Some(SpecTerm::Const(SpecValue::Int(n))),
        _ => None,
    }
}

pub open spec fn eq_name() -> Seq<char> {
    seq!['=']
}

pub open spec fn neq_name() -> Seq<char> {
    seq!['!', '=']
}

pub open spec fn not_name() -> Seq<char> {
    seq!['n', 'o', 't']
}

pub open spec fn not_prefix() -> Seq<char> {
    seq!['n', 'o', 't', ':']
}

/// `X = t` or `X != t` starting at `i` (the operator at `i + 1`).
pub open spec fn comparison_at(ts: Seq<SpecToken>, i: int, name: Seq<char>) -> Result<(SpecPredicate, int), Seq<char>> {
    if ts.len() - i <= 2 {
        Err("Expected argument after '"@ + name + "'"@)
    } else if !is_var_name(ts[i]->Ident_0) {
        Err("Expected variable before '"@ + name + "'"@)
    } else {
        match operand_term(ts[i + 2]) {
            None => Err("Expected variable or constant after '"@ + name + "'"@),
            Some(t2) => Ok((
                SpecPredicate { name, args: seq![SpecTerm::Var(ts[i]->Ident_0), t2] },
                i + 3,
            )),
        }
    }
}

/// A predicate starting at position `i`, with the position after it.
pub open spec fn pred_at(ts: Seq<SpecToken>, i: int, rs: int) -> Result<(SpecPredicate, int), Seq<char>>
    decreases ts.len() - i,
{
    if i < 0 || i >= ts.len() {
        Err("Unexpected end of input"@)
    } else if !(ts[i] is Ident) {
        Err("Expected predicate name"@)
    } else if i + 1 >= ts.len() {
        Err("Expected '(', '=', or '!=' after predicate name"@)
    } else if ts[i + 1] is Eq {
        comparison_at(ts, i, eq_name())
    } else if ts[i + 1] is NotEq {
        comparison_at(ts, i, neq_name())
    } else if !(ts[i + 1] is LParen) {
        Err("Expected '(' after predicate name"@)
    } else if ts[i]->Ident_0 == not_name() {
        match pred_at(ts, i + 2, rs) {
            Err(e) => Err(e),
            Ok((inner, k)) => if k >= ts.len() || !(ts[k] is RParen) {
                Err("Expected ')' after not() predicate"@)
            } else {
                Ok((SpecPredicate { name: not_prefix() + inner.name, args: inner.args }, k + 1))
            },
        }
    } else {
        match pred_args(ts, i + 2, rs) {
            Err(e) => Err(e),
            Ok((args, k)) => Ok((SpecPredicate { name: ts[i]->Ident_0, args }, k)),
        }
    }
}

/// The body of a rule from position `j`: predicates separated by `,` and ended by `.`.
pub open spec fn body_from(ts: Seq<SpecToken>, j: int, rs: int) -> Result<(Seq<SpecPredicate>, int), Seq<char>>
    decreases ts.len() - j,
{
    match pred_at(ts, j, rs) {
        Err(e) => Err(e),
        Ok((p, k)) => if k <= j || k >= ts.len() {
            Err("Expected '.' or ',' after body predicate"@)
        } else if ts[k] is Comma {
            match body_from(ts, k + 1, rs) {
                Err(e) => Err(e),
                Ok((rest, m)) => Ok((seq![p] + rest, m)),
            }
        } else if ts[k] is Dot {
            Ok((seq![p], k + 1))
        } else {
            Err("Expected '.' or ',' after body predicate"@)
        },
    }
}

/// A rule `head :- body.` starting at position `i`.
pub open spec fn rule_at(ts: Seq<SpecToken>, i: int) -> Result<(SpecRule, int), Seq<char>> {
    match pred_at(ts, i, i) {
        Err(e) => Err(e),
        Ok((head, j)) => if j >= ts.len() || !(ts[j] is RuleSep) {
            Err("Expected ':-' after head predicate"@)
        } else {
            match body_from(ts, j + 1, i) {
                Err(e) => Err(e),
                Ok((body, k)) => Ok((SpecRule { head, body }, k)),
            }
        },
    }
}

/// Position of the first `.` at or after `i`, or the end.
pub open spec fn dot_from(ts: Seq<SpecToken>, i: int) -> int
    decreases ts.len() - i,
{
    if 0 <= i < ts.len() && !(ts[i] is Dot) {
        dot_from(ts, i + 1)
    } else {
        i
    }
}

/// Whether a `:-` occurs between positions `i` and `d`.
pub open spec fn has_rule_sep(ts: Seq<SpecToken>, i: int, d: int) -> bool {
    exists|k: int| i <= k < d && ts[k] is RuleSep
}

/// The facts and rules of a program from position `i` on.
pub open spec fn program_from(ts: Seq<SpecToken>, i: int) -> Result<(Seq<SpecFact>, Seq<SpecRule>), Seq<char>>
    decreases ts.len() - i,
{
    if i < 0 || i >= ts.len() {
        Ok((seq![], seq![]))
    } else if ts[i] is Ident && i + 1 < ts.len() && ts[i + 1] is LParen {
        let d = dot_from(ts, i);
        if d >= ts.len() {
            Err("Expected '.' after predicate"@)
        } else if has_rule_sep(ts, i, d) {
            match rule_at(ts, i) {
                Err(e) => Err(e),
                Ok((r, k)) => if i < k && k <= ts.len() {
                    match program_from(ts, k) {
                        Err(e) => Err(e),
                        Ok((fs, rs)) => Ok((fs, seq![r] + rs)),
                    }
                } else {
                    Err("Expected '.' after predicate"@)
                },
            }
        } else {
            match fact_at(ts, i) {
                Err(e) => Err(e),
                Ok((f, k)) => if i < k && k <= ts.len() {
                    match program_from(ts, k) {
                        Err(e) => Err(e),
                        Ok((fs, rs)) => Ok((seq![f] + fs, rs)),
                    }
                } else {
                    Err("Expected '.' after predicate"@)
                },
            }
        }
    } else {
        program_from(ts, i + 1)
    }
}

/// The predicates of a query body from position `i`: separated by `,`, ended by `.`.
pub open spec fn query_from(ts: Seq<SpecToken>, i: int, rs: int) -> Result<Seq<SpecPredicate>, Seq<char>>
    decreases ts.len() - i,
{
    if i < 0 || i >= ts.len() {
        Err("Unexpected end of input"@)
    } else {
        match pred_at(ts, i, rs) {
            Err(e) => Err(e),
            Ok((p, k)) => if k <= i || k >= ts.len() {
                Err("Expected '.' or ',' after predicate"@)
            } else if ts[k] is Comma {
                match query_from(ts, k + 1, rs) {
                    Err(e) => Err(e),
                    Ok(rest) => Ok(seq![p] + rest),
                }
            } else if ts[k] is Dot {
                Ok(seq![p])
            } else {
                Err("Expected '.' or ',' after predicate"@)
            },
        }
    }
}

/// The facts of a text, as `parse` reads them.
pub open spec fn parse_spec(s: Seq<char>) -> Result<Seq<SpecFact>, Seq<char>> {
    facts_from(tokenize_spec(s), 0)
}

/// The facts and rules of a text, as `parse_program` reads them.
pub open spec fn program_spec(s: Seq<char>) -> Result<(Seq<SpecFact>, Seq<SpecRule>), Seq<char>> {
    program_from(tokenize_spec(s), 0)
}

/// The predicates of a query body, as `parse_query_body` reads them.
pub open spec fn query_spec(s: Seq<char>) -> Result<Seq<SpecPredicate>, Seq<char>> {
    query_from(tokenize_spec(s), 0, 0)
}


// ---------------------------------------------------------------------------
// Executable parser.
// ---------------------------------------------------------------------------

pub open spec fn vals_res(r: Result<(Vec<Value>, usize), String>, s: Result<(Seq<SpecValue>, int), Seq<char>>) -> bool {
    match (r, s) {
        (Ok((a, k)), Ok((sa, sk))) => values_view(a@) == sa && k as int == sk,
        (Err(m), Err(sm)) => m@ == sm,
        _ => false,
    }
}

pub open spec fn terms_res(r: Result<(Vec<Term>, usize), String>, s: Result<(Seq<SpecTerm>, int), Seq<char>>) -> bool {
    match (r, s) {
        (Ok((a, k)), Ok((sa, sk))) => terms_view(a@) == sa && k as int == sk,
        (Err(m), Err(sm)) => m@ == sm,
        _ => false,
    }
}

pub open spec fn fact_res(r: Result<(Fact, usize), String>, s: Result<(SpecFact, int), Seq<char>>) -> bool {
    match (r, s) {
        (Ok((a, k)), Ok((sa, sk))) => a@ == sa && k as int == sk,
        (Err(m), Err(sm)) => m@ == sm,
        _ => false,
    }
}

pub open spec fn pred_res(r: Result<(Predicate, usize), String>, s: Result<(SpecPredicate, int), Seq<char>>) -> bool {
    match (r, s) {
        (Ok((a, k)), Ok((sa, sk))) => a@ == sa && k as int == sk,
        (Err(m), Err(sm)) => m@ == sm,
        _ => false,
    }
}

pub open spec fn preds_res(r: Result<(Vec<Predicate>, usize), String>, s: Result<(Seq<SpecPredicate>, int), Seq<char>>) -> bool {
    match (r, s) {
        (Ok((a, k)), Ok((sa, sk))) => preds_view(a@) == sa && k as int == sk,
        (Err(m), Err(sm)) => m@ == sm,
        _ => false,
    }
}

pub open spec fn rule_res(r: Result<(Rule, usize), String>, s: Result<(SpecRule, int), Seq<char>>) -> bool {
    match (r, s) {
        (Ok((a, k)), Ok((sa, sk))) => a@ == sa && k as int == sk,
        (Err(m), Err(sm)) => m@ == sm,
        _ => false,
    }
}

proof fn lemma_values_push(vs: Seq<Value>, v: Value)
    ensures
        values_view(vs.push(v)) == values_view(vs) + seq![v@],
{
    assert(values_view(vs.push(v)) =~= values_view(vs) + seq![v@]);
}

proof fn lemma_terms_push(vs: Seq<Term>, v: Term)
    ensures
        terms_view(vs.push(v)) == terms_view(vs) + seq![v@],
{
    assert(terms_view(vs.push(v)) =~= terms_view(vs) + seq![v@]);
}

proof fn lemma_preds_push(vs: Seq<Predicate>, v: Predicate)
    ensures
        preds_view(vs.push(v)) == preds_view(vs) + seq![v@],
{
    assert(preds_view(vs.push(v)) =~= preds_view(vs) + seq![v@]);
}

proof fn lemma_facts_push(vs: Seq<Fact>, v: Fact)
    ensures
        facts_view(vs.push(v)) == facts_view(vs) + seq![v@],
{
    assert(facts_view(vs.push(v)) =~= facts_view(vs) + seq![v@]);
}

proof fn lemma_rules_push(vs: Seq<Rule>, v: Rule)
    ensures
        rules_view(vs.push(v)) == rules_view(vs) + seq![v@],
{
    assert(rules_view(vs.push(v)) =~= rules_view(vs) + seq![v@]);
}

proof fn lemma_lift_vals(a: Seq<SpecValue>, b: Seq<SpecValue>, r: Result<(Seq<SpecValue>, int), Seq<char>>)
    ensures
        lift_vals(a, lift_vals(b, r)) == lift_vals(a + b, r),
{
    match r {
        Ok((rest, k)) => {
            assert(a + (b + rest) =~= (a + b) + rest);
        },
        Err(_) => {},
    }
}

proof fn lemma_lift_terms(a: Seq<SpecTerm>, b: Seq<SpecTerm>, r: Result<(Seq<SpecTerm>, int), Seq<char>>)
    ensures
        lift_terms(a, lift_terms(b, r)) == lift_terms(a + b, r),
{
    match r {
        Ok((rest, k)) => {
            assert(a + (b + rest) =~= (a + b) + rest);
        },
        Err(_) => {},
    }
}

/// The message `before` + `'op'`, as the comparison errors write it.
fn operator_error(before: &str, op: &String) -> (r: String)
    ensures
        r@ == before@ + op@ + "'"@,
{
    let mut m = str_to_string(before);
    push_string(&mut m, op);
    m.push('\'');
    proof { reveal_strlit("'"); }
    assert(m@ =~= before@ + op@ + "'"@);
    m
}

/// How a message names a token that may not stand where it was found: its kind, which is the
/// whole of its debug form for the tokens that carry no value.
pub open spec fn token_name(t: SpecToken) -> Seq<char> {
    match t {
        SpecToken::Ident(_) => "Ident"@,
        SpecToken::Str(_) => "String"@,
        SpecToken::Int(_) => "Int"@,
        SpecToken::LParen => "LParen"@,
        SpecToken::RParen => "RParen"@,
        SpecToken::Dot => "Dot"@,
        SpecToken::Comma => "Comma"@,
        SpecToken::RuleSep => "Rule"@,
        SpecToken::Eq => "Eq"@,
        SpecToken::NotEq => "NotEq"@,
    }
}

/// `prefix` followed by the name of the token `t`.
fn unexpected_token(prefix: &str, t: &Token) -> (r: String)
    ensures
        r@ == prefix@ + token_name(t@),
{
    let mut m = str_to_string(prefix);
    match t {
        Token::Ident(_) => push_all(&mut m, "Ident"),
        Token::Str(_) => push_all(&mut m, "String"),
        Token::Int(_) => push_all(&mut m, "Int"),
        Token::LParen => push_all(&mut m, "LParen"),
        Token::RParen => push_all(&mut m, "RParen"),
        Token::Dot => push_all(&mut m, "Dot"),
        Token::Comma => push_all(&mut m, "Comma"),
        Token::RuleSep => push_all(&mut m, "Rule"),
        Token::Eq => push_all(&mut m, "Eq"),
        Token::NotEq => push_all(&mut m, "NotEq"),
    }
    m
}

fn parse_error(msg: &str) -> (r: String)
    ensures
        r@ == msg@,
{
    str_to_string(msg)
}

/// The arguments of a fact from `start` up to its `)`.
fn parse_fact_args(ts: &Vec<Token>, start: usize) -> (r: Result<(Vec<Value>, usize), String>)
    requires
        start <= ts@.len(),
    ensures
        vals_res(r, fact_args(tokens_view(ts@), start as int)),
        r matches Ok((_, k)) ==> start <= k <= ts@.len(),
{
    let ghost tv = tokens_view(ts@);
    let mut args: Vec<Value> = Vec::new();
    let mut j = start;
    assert(values_view(args@) =~= Seq::<SpecValue>::empty());
    assert(lift_vals(seq![], fact_args(tv, start as int)) == fact_args(tv, start as int)) by {
        match fact_args(tv, start as int) {
            Ok((rest, k)) => { assert(Seq::<SpecValue>::empty() + rest =~= rest); },
            Err(_) => {},
        }
    }
    loop
        invariant
            tv == tokens_view(ts@),
            start <= j <= ts@.len(),
            fact_args(tv, start as int) == lift_vals(values_view(args@), fact_args(tv, j as int)),
        decreases ts@.len() - j,
    {
        if j >= ts.len() {
            assert(values_view(args@) + Seq::<SpecValue>::empty() =~= values_view(args@));
            return Ok((args, j));
        }
        let ghost before = values_view(args@);
        match &ts[j] {
            Token::RParen => {
                assert(values_view(args@) + Seq::<SpecValue>::empty() =~= values_view(args@));
                return Ok((args, j + 1));
            },
            Token::Str(s) => {
                let v = Value::String(s.clone());
                proof {
                    lemma_values_push(args@, v);
                    lemma_lift_vals(before, seq![v@], fact_args(tv, j + 1));
                }
                args.push(v);
                j = j + 1;
            },
            Token::Ident(s) => {
                let v = Value::String(s.clone());
                proof {
                    lemma_values_push(args@, v);
                    lemma_lift_vals(before, seq![v@], fact_args(tv, j + 1));
                }
                args.push(v);
                j = j + 1;
            },
            Token::Int(n) => {
                let v = Value::Integer(*n);
                proof {
                    lemma_values_push(args@, v);
                    lemma_lift_vals(before, seq![v@], fact_args(tv, j + 1));
                }
                args.push(v);
                j = j + 1;
            },
            Token::Comma => {
                j = j + 1;
            },
            _ => {
                return Err(unexpected_token("Unexpected token: ", &ts[j]));
            },
        }
    }
}

/// A fact `name(args).` starting at position `i`.
fn parse_fact_at(ts: &Vec<Token>, i: usize) -> (r: Result<(Fact, usize), String>)
    requires
        i <= ts@.len(),
    ensures
        fact_res(r, fact_at(tokens_view(ts@), i as int)),
        r matches Ok((_, k)) ==> i < k <= ts@.len(),
{
    let ghost tv = tokens_view(ts@);
    if i >= ts.len() {
        return Err(parse_error("Unexpected end of input"));
    }
    let name = match &ts[i] {
        Token::Ident(n) => n.clone(),
        _ => {
            return Err(parse_error("Expected predicate name"));
        },
    };
    if i + 1 >= ts.len() {
        return Err(parse_error("Expected '(' after predicate"));
    }
    match &ts[i + 1] {
        Token::LParen => {},
        _ => {
            return Err(parse_error("Expected '(' after predicate"));
        },
    }
    let (args, k) = match parse_fact_args(ts, i + 2) {
        Ok(x) => x,
        Err(e) => {
            return Err(e);
        },
    };
    if k >= ts.len() {
        return Err(parse_error("Expected '.' after fact"));
    }
    match &ts[k] {
        Token::Dot => {},
        _ => {
            return Err(parse_error("Expected '.' after fact"));
        },
    }
    Ok((Fact { predicate: name, args }, k + 1))
}

/// Every fact of the tokens, skipping what does not start one.
fn parse_facts(ts: &Vec<Token>) -> (r: Result<Vec<Fact>, String>)
    ensures
        match (r, facts_from(tokens_view(ts@), 0)) {
            (Ok(fs), Ok(sfs)) => facts_view(fs@) == sfs,
            (Err(m), Err(sm)) => m@ == sm,
            _ => false,
        },
{
    let ghost tv = tokens_view(ts@);
    let mut facts: Vec<Fact> = Vec::new();
    let mut i: usize = 0;
    loop
        invariant
            tv == tokens_view(ts@),
            i <= ts@.len(),
            facts_from(tv, 0) == match facts_from(tv, i as int) {
                Ok(rest) => Ok(facts_view(facts@) + rest),
                Err(e) => Err(e),
            },
        decreases ts@.len() - i,
    {
        if i >= ts.len() {
            assert(facts_view(facts@) + Seq::<SpecFact>::empty() =~= facts_view(facts@));
            return Ok(facts);
        }
        let starts = match &ts[i] {
            Token::Ident(_) => i + 1 < ts.len() && match &ts[i + 1] {
                Token::LParen => true,
                _ => false,
            },
            _ => false,
        };
        if starts {
            match parse_fact_at(ts, i) {
                Ok((f, k)) => {
                    let ghost before = facts_view(facts@);
                    proof {
                        lemma_facts_push(facts@, f);
                        match facts_from(tv, k as int) {
                            Ok(rest) => {
                                assert(before + (seq![f@] + rest) =~= (before + seq![f@]) + rest);
                            },
                            Err(_) => {},
                        }
                    }
                    facts.push(f);
                    i = k;
                },
                Err(e) => {
                    return Err(e);
                },
            }
        } else {
            i = i + 1;
        }
    }
}

/// Whether an identifier names a variable (exec).
fn is_var_ident(s: &String) -> (r: bool)
    ensures
        r == is_var_name(s@),
{
    let cs = string_chars(s);
    cs.len() > 0 && char_is_uppercase(cs[0])
}

fn is_underscore(s: &String) -> (r: bool)
    ensures
        r == (s@ == seq!['_']),
{
    let cs = string_chars(s);
    let r = cs.len() == 1 && cs[0] == '_';
    proof {
        if r {
            assert(cs@ =~= seq!['_']);
        }
    }
    r
}

fn is_not_ident(s: &String) -> (r: bool)
    ensures
        r == (s@ == not_name()),
{
    let cs = string_chars(s);
    let r = cs.len() == 3 && cs[0] == 'n' && cs[1] == 'o' && cs[2] == 't';
    proof {
        if r {
            assert(cs@ =~= not_name());
        }
    }
    r
}

/// The name of the anonymous variable written at token position `n`.
fn anon_var(n: usize) -> (r: String)
    ensures
        r@ == anon_name(n as nat),
{
    let mut r = String::new();
    r.push('_');
    r.push('a');
    r.push('n');
    r.push('o');
    r.push('n');
    r.push('_');
    let ds = u64_digits(n as u64);
    let t = string_from_chars(ds.as_slice());
    push_string(&mut r, &t);
    assert(r@ =~= anon_name(n as nat));
    r
}

fn is_wild_token(t: &Token) -> (r: bool)
    ensures
        r == (t@ == SpecToken::Ident(seq!['_'])),
{
    match t {
        Token::Ident(s) => is_underscore(s),
        _ => false,
    }
}

/// The number of `_` among `ts[a..b]` (see `wild_count`).
fn count_wild(ts: &Vec<Token>, a: usize, b: usize) -> (n: usize)
    requires
        a <= b <= ts@.len(),
    ensures
        n as nat == wild_count(tokens_view(ts@), a as int, b as int),
        n <= b - a,
{
    let ghost tv = tokens_view(ts@);
    let mut n: usize = 0;
    let mut k = a;
    while k < b
        invariant
            a <= k <= b <= ts@.len(),
            tv == tokens_view(ts@),
            n as nat == wild_count(tv, a as int, k as int),
            n <= k - a,
        decreases b - k,
    {
        assert(tv[k as int] == ts@[k as int]@);
        if is_wild_token(&ts[k]) {
            n = n + 1;
        }
        k = k + 1;
    }
    n
}

/// The arguments of a predicate from `start` up to its `)`.
fn parse_pred_args(ts: &Vec<Token>, start: usize, rs: usize) -> (r: Result<(Vec<Term>, usize), String>)
    requires
        rs <= start <= ts@.len(),
    ensures
        terms_res(r, pred_args(tokens_view(ts@), start as int, rs as int)),
        r matches Ok((_, k)) ==> start <= k <= ts@.len(),
{
    let ghost tv = tokens_view(ts@);
    let mut args: Vec<Term> = Vec::new();
    let mut j = start;
    let mut anon = count_wild(ts, rs, start);
    assert(terms_view(args@) =~= Seq::<SpecTerm>::empty());
    assert(lift_terms(seq![], pred_args(tv, start as int, rs as int)) == pred_args(tv, start as int, rs as int)) by {
        match pred_args(tv, start as int, rs as int) {
            Ok((rest, k)) => { assert(Seq::<SpecTerm>::empty() + rest =~= rest); },
            Err(_) => {},
        }
    }
    loop
        invariant
            tv == tokens_view(ts@),
            rs <= start <= j <= ts@.len(),
            anon as nat == wild_count(tv, rs as int, j as int),
            anon <= j - rs,
            pred_args(tv, start as int, rs as int) == lift_terms(terms_view(args@), pred_args(tv, j as int, rs as int)),
        decreases ts@.len() - j,
    {
        if j >= ts.len() {
            assert(terms_view(args@) + Seq::<SpecTerm>::empty() =~= terms_view(args@));
            return Ok((args, j));
        }
        let ghost before = terms_view(args@);
        match &ts[j] {
            Token::RParen => {
                assert(terms_view(args@) + Seq::<SpecTerm>::empty() =~= terms_view(args@));
                return Ok((args, j + 1));
            },
            Token::Ident(s) => {
                if is_underscore(s) {
                    let t = Term::Variable(anon_var(anon));
                    proof {
                        lemma_terms_push(args@, t);
                        lemma_lift_terms(before, seq![t@], pred_args(tv, j + 1, rs as int));
                    }
                    args.push(t);
                    anon = anon + 1;
                } else if is_var_ident(s) {
                    let t = Term::Variable(s.clone());
                    proof {
                        lemma_terms_push(args@, t);
                        lemma_lift_terms(before, seq![t@], pred_args(tv, j + 1, rs as int));
                    }
                    args.push(t);
                } else {
                    let t = Term::Constant(Value::String(s.clone()));
                    proof {
                        lemma_terms_push(args@, t);
                        lemma_lift_terms(before, seq![t@], pred_args(tv, j + 1, rs as int));
                    }
                    args.push(t);
                }
                j = j + 1;
            },
            Token::Str(s) => {
                let t = Term::Constant(Value::String(s.clone()));
                proof {
                    lemma_terms_push(args@, t);
                    lemma_lift_terms(before, seq![t@], pred_args(tv, j + 1, rs as int));
                }
                args.push(t);
                j = j + 1;
            },
            Token::Int(n) => {
                let t = Term::Constant(Value::Integer(*n));
                proof {
                    lemma_terms_push(args@, t);
                    lemma_lift_terms(before, seq![t@], pred_args(tv, j + 1, rs as int));
                }
                args.push(t);
                j = j + 1;
            },
            Token::Comma => {
                j = j + 1;
            },
            _ => {
                return Err(unexpected_token("Unexpected token in predicate: ", &ts[j]));
            },
        }
    }
}

/// The operand after `=` or `!=`.
fn parse_operand(t: &Token) -> (r: Option<Term>)
    ensures
        match (r, operand_term(t@)) {
            (Some(a), Some(b)) => a@ == b,
            (None, None) => true,
            _ => false,
        },
{
    match t {
        Token::Ident(s) => if is_var_ident(s) {
            Some(Term::Variable(s.clone()))
        } else {
            Some(Term::Constant(Value::String(s.clone())))
        },
        Token::Str(s) => Some(Term::Constant(Value::String(s.clone()))),
        Token::Int(n) => Some(Term::Constant(Value::Integer(*n))),
        _ => None,
    }
}

/// `X = t` or `X != t` at position `i`; `name` is the operator's name.
fn parse_comparison_at(ts: &Vec<Token>, i: usize, name: String) -> (r: Result<(Predicate, usize), String>)
    requires
        i < ts@.len(),
        ts@[i as int] is Ident,
    ensures
        pred_res(r, comparison_at(tokens_view(ts@), i as int, name@)),
        r matches Ok((_, k)) ==> i < k <= ts@.len(),
{
    if ts.len() - i <= 2 {
        return Err(operator_error("Expected argument after '", &name));
    }
    let v = match &ts[i] {
        Token::Ident(s) => s,
        _ => {
            return Err(operator_error("Expected variable before '", &name));
        },
    };
    if !is_var_ident(v) {
        return Err(operator_error("Expected variable before '", &name));
    }
    let t2 = match parse_operand(&ts[i + 2]) {
        Some(t) => t,
        None => {
            return Err(operator_error("Expected variable or constant after '", &name));
        },
    };
    let mut args: Vec<Term> = Vec::new();
    args.push(Term::Variable(v.clone()));
    args.push(t2);
    let p = Predicate { name, args };
    assert(p@.args =~= seq![SpecTerm::Var(v@), t2@]);
    Ok((p, i + 3))
}

/// A predicate starting at position `i`.
fn parse_pred_at(ts: &Vec<Token>, i: usize, rs: usize) -> (r: Result<(Predicate, usize), String>)
    requires
        rs <= i <= ts@.len(),
    ensures
        pred_res(r, pred_at(tokens_view(ts@), i as int, rs as int)),
        r matches Ok((_, k)) ==> i < k <= ts@.len(),
    decreases ts@.len() - i,
{
    let ghost tv = tokens_view(ts@);
    if i >= ts.len() {
        return Err(parse_error("Unexpected end of input"));
    }
    let name = match &ts[i] {
        Token::Ident(n) => n.clone(),
        _ => {
            return Err(parse_error("Expected predicate name"));
        },
    };
    if i + 1 >= ts.len() {
        return Err(parse_error("Expected '(', '=', or '!=' after predicate name"));
    }
    match &ts[i + 1] {
        Token::Eq => {
            let mut op = String::new();
            op.push('=');
            assert(op@ =~= eq_name());
            return parse_comparison_at(ts, i, op);
        },
        Token::NotEq => {
            let mut op = String::new();
            op.push('!');
            op.push('=');
            assert(op@ =~= neq_name());
            return parse_comparison_at(ts, i, op);
        },
        Token::LParen => {},
        _ => {
            return Err(parse_error("Expected '(' after predicate name"));
        },
    }
    if is_not_ident(&name) {
        let (inner, k) = match parse_pred_at(ts, i + 2, rs) {
            Ok(x) => x,
            Err(e) => {
                return Err(e);
            },
        };
        if k >= ts.len() {
            return Err(parse_error("Expected ')' after not() predicate"));
        }
        match &ts[k] {
            Token::RParen => {},
            _ => {
                return Err(parse_error("Expected ')' after not() predicate"));
            },
        }
        let mut nm = String::new();
        nm.push('n');
        nm.push('o');
        nm.push('t');
        nm.push(':');
        push_string(&mut nm, &inner.name);
        assert(nm@ =~= not_prefix() + inner.name@);
        return Ok((Predicate { name: nm, args: inner.args }, k + 1));
    }
    match parse_pred_args(ts, i + 2, rs) {
        Ok((args, k)) => Ok((Predicate { name, args }, k)),
        Err(e) => Err(e),
    }
}

/// The body of a rule from position `start`.
fn parse_body(ts: &Vec<Token>, start: usize, rs: usize) -> (r: Result<(Vec<Predicate>, usize), String>)
    requires
        rs <= start <= ts@.len(),
    ensures
        preds_res(r, body_from(tokens_view(ts@), start as int, rs as int)),
        r matches Ok((_, k)) ==> start < k <= ts@.len(),
{
    let ghost tv = tokens_view(ts@);
    let mut body: Vec<Predicate> = Vec::new();
    let mut j = start;
    assert(preds_view(body@) =~= Seq::<SpecPredicate>::empty());
    assert(body_from(tv, start as int, rs as int) == match body_from(tv, j as int, rs as int) {
        Ok((rest, m)) => Ok((preds_view(body@) + rest, m)),
        Err(e) => Err(e),
    }) by {
        match body_from(tv, start as int, rs as int) {
            Ok((rest, k)) => { assert(Seq::<SpecPredicate>::empty() + rest =~= rest); },
            Err(_) => {},
        }
    }
    loop
        invariant
            tv == tokens_view(ts@),
            rs <= start <= j <= ts@.len(),
            body_from(tv, start as int, rs as int) == match body_from(tv, j as int, rs as int) {
                Ok((rest, m)) => Ok((preds_view(body@) + rest, m)),
                Err(e) => Err(e),
            },
        decreases ts@.len() - j,
    {
        let (p, k) = match parse_pred_at(ts, j, rs) {
            Ok(x) => x,
            Err(e) => {
                return Err(e);
            },
        };
        if k >= ts.len() {
            return Err(parse_error("Expected '.' or ',' after body predicate"));
        }
        let ghost before = preds_view(body@);
        proof { lemma_preds_push(body@, p); }
        let ghost pv = p@;
        match &ts[k] {
            Token::Comma => {
                body.push(p);
                proof {
                    match body_from(tv, k + 1, rs as int) {
                        Ok((rest, m)) => {
                            assert(before + (seq![pv] + rest) =~= (before + seq![pv]) + rest);
                        },
                        Err(_) => {},
                    }
                }
                j = k + 1;
            },
            Token::Dot => {
                body.push(p);
                return Ok((body, k + 1));
            },
            _ => {
                return Err(parse_error("Expected '.' or ',' after body predicate"));
            },
        }
    }
}

/// A rule starting at position `i`.
fn parse_rule_at(ts: &Vec<Token>, i: usize) -> (r: Result<(Rule, usize), String>)
    requires
        i <= ts@.len(),
    ensures
        rule_res(r, rule_at(tokens_view(ts@), i as int)),
        r matches Ok((_, k)) ==> i < k <= ts@.len(),
{
    let (head, j) = match parse_pred_at(ts, i, i) {
        Ok(x) => x,
        Err(e) => {
            return Err(e);
        },
    };
    if j >= ts.len() {
        return Err(parse_error("Expected ':-' after head predicate"));
    }
    match &ts[j] {
        Token::RuleSep => {},
        _ => {
            return Err(parse_error("Expected ':-' after head predicate"));
        },
    }
    match parse_body(ts, j + 1, i) {
        Ok((body, k)) => Ok((Rule { head, body }, k)),
        Err(e) => Err(e),
    }
}

/// Position of the first `.` at or after `i`.
fn find_dot(ts: &Vec<Token>, i: usize) -> (d: usize)
    requires
        i <= ts@.len(),
    ensures
        d as int == dot_from(tokens_view(ts@), i as int),
        i <= d <= ts@.len(),
        forall|k: int| i <= k < d ==> !(ts@[k] is Dot),
{
    let ghost tv = tokens_view(ts@);
    let mut k = i;
    while k < ts.len() && !matches!(&ts[k], Token::Dot)
        invariant
            i <= k <= ts@.len(),
            tv == tokens_view(ts@),
            dot_from(tv, i as int) == dot_from(tv, k as int),
            forall|m: int| i <= m < k ==> !(ts@[m] is Dot),
        decreases ts@.len() - k,
    {
        k = k + 1;
    }
    k
}

/// Whether a `:-` occurs between `i` and `d`.
fn find_rule_sep(ts: &Vec<Token>, i: usize, d: usize) -> (r: bool)
    requires
        i <= d <= ts@.len(),
    ensures
        r == has_rule_sep(tokens_view(ts@), i as int, d as int),
{
    let ghost tv = tokens_view(ts@);
    let mut k = i;
    while k < d
        invariant
            i <= k <= d <= ts@.len(),
            tv == tokens_view(ts@),
            forall|m: int| i <= m < k ==> !(tv[m] is RuleSep),
        decreases d - k,
    {
        if matches!(&ts[k], Token::RuleSep) {
            assert(tv[k as int] is RuleSep);
            return true;
        }
        k = k + 1;
    }
    false
}

/// The facts and rules of the tokens.
#[verifier::rlimit(40)]
fn parse_program_tokens(ts: &Vec<Token>) -> (r: Result<(Vec<Fact>, Vec<Rule>), String>)
    ensures
        match (r, program_from(tokens_view(ts@), 0)) {
            (Ok((fs, rs)), Ok((sfs, srs))) => facts_view(fs@) == sfs && rules_view(rs@) == srs,
            (Err(m), Err(sm)) => m@ == sm,
            _ => false,
        },
{
    let ghost tv = tokens_view(ts@);
    let mut facts: Vec<Fact> = Vec::new();
    let mut rules: Vec<Rule> = Vec::new();
    let mut i: usize = 0;
    loop
        invariant
            tv == tokens_view(ts@),
            i <= ts@.len(),
            program_from(tv, 0) == match program_from(tv, i as int) {
                Ok((fs, rs)) => Ok((facts_view(facts@) + fs, rules_view(rules@) + rs)),
                Err(e) => Err(e),
            },
        decreases ts@.len() - i,
    {
        if i >= ts.len() {
            assert(facts_view(facts@) + Seq::<SpecFact>::empty() =~= facts_view(facts@));
            assert(rules_view(rules@) + Seq::<SpecRule>::empty() =~= rules_view(rules@));
            return Ok((facts, rules));
        }
        let starts = match &ts[i] {
            Token::Ident(_) => i + 1 < ts.len() && match &ts[i + 1] {
                Token::LParen => true,
                _ => false,
            },
            _ => false,
        };
        if starts {
            let d = find_dot(ts, i);
            if d >= ts.len() {
                return Err(parse_error("Expected '.' after predicate"));
            }
            if find_rule_sep(ts, i, d) {
                match parse_rule_at(ts, i) {
                    Ok((r, k)) => {
                        let ghost before = rules_view(rules@);
                        proof {
                            lemma_rules_push(rules@, r);
                            match program_from(tv, k as int) {
                                Ok((fs, rs)) => {
                                    assert(before + (seq![r@] + rs) =~= (before + seq![r@]) + rs);
                                },
                                Err(_) => {},
                            }
                        }
                        rules.push(r);
                        i = k;
                    },
                    Err(e) => {
                        return Err(e);
                    },
                }
            } else {
                match parse_fact_at(ts, i) {
                    Ok((f, k)) => {
                        let ghost before = facts_view(facts@);
                        proof {
                            lemma_facts_push(facts@, f);
                            match program_from(tv, k as int) {
                                Ok((fs, rs)) => {
                                    assert(before + (seq![f@] + fs) =~= (before + seq![f@]) + fs);
                                },
                                Err(_) => {},
                            }
                        }
                        facts.push(f);
                        i = k;
                    },
                    Err(e) => {
                        return Err(e);
                    },
                }
            }
        } else {
            i = i + 1;
        }
    }
}

/// Parses the facts of a text; other constructs are skipped.
pub fn parse(input: &str) -> (r: Result<Vec<Fact>, String>)
    ensures
        match (r, parse_spec(input@)) {
            (Ok(fs), Ok(sfs)) => facts_view(fs@) == sfs,
            (Err(m), Err(sm)) => m@ == sm,
            _ => false,
        },
{
    let tokens = tokenize(input);
    parse_facts(&tokens)
}

/// Parses a program into its facts and rules, each in the order of the text.
pub fn parse_program(input: &str) -> (r: Result<(Vec<Fact>, Vec<Rule>), String>)
    ensures
        match (r, program_spec(input@)) {
            (Ok((fs, rs)), Ok((sfs, srs))) => facts_view(fs@) == sfs && rules_view(rs@) == srs,
            (Err(m), Err(sm)) => m@ == sm,
            _ => false,
        },
{
    let tokens = tokenize(input);
    parse_program_tokens(&tokens)
}

/// Parses the body of a query: predicates separated by `,` and ended by `.`.
pub fn parse_query_body(input: &str) -> (r: Result<Vec<Predicate>, String>)
    ensures
        match (r, query_spec(input@)) {
            (Ok(ps), Ok(sps)) => preds_view(ps@) == sps,
            (Err(m), Err(sm)) => m@ == sm,
            _ => false,
        },
{
    let ts = tokenize(input);
    let ghost tv = tokens_view(ts@);
    let mut body: Vec<Predicate> = Vec::new();
    let mut i: usize = 0;
    assert(preds_view(body@) =~= Seq::<SpecPredicate>::empty());
    assert(query_from(tv, 0, 0) == match query_from(tv, 0, 0) {
        Ok(rest) => Ok(preds_view(body@) + rest),
        Err(e) => Err(e),
    }) by {
        match query_from(tv, 0, 0) {
            Ok(rest) => { assert(Seq::<SpecPredicate>::empty() + rest =~= rest); },
            Err(_) => {},
        }
    }
    loop
        invariant
            tv == tokens_view(ts@),
            tv == tokenize_spec(input@),
            i <= ts@.len(),
            query_from(tv, 0, 0) == match query_from(tv, i as int, 0) {
                Ok(rest) => Ok(preds_view(body@) + rest),
                Err(e) => Err(e),
            },
        decreases ts@.len() - i,
    {
        if i >= ts.len() {
            return Err(parse_error("Unexpected end of input"));
        }
        let (p, k) = match parse_pred_at(&ts, i, 0) {
            Ok(x) => x,
            Err(e) => {
                return Err(e);
            },
        };
        if k >= ts.len() {
            return Err(parse_error("Expected '.' or ',' after predicate"));
        }
        let ghost before = preds_view(body@);
        proof { lemma_preds_push(body@, p); }
        let ghost pv = p@;
        match &ts[k] {
            Token::Comma => {
                body.push(p);
                proof {
                    match query_from(tv, k + 1, 0) {
                        Ok(rest) => {
                            assert(before + (seq![pv] + rest) =~= (before + seq![pv]) + rest);
                        },
                        Err(_) => {},
                    }
                }
                i = k + 1;
            },
            Token::Dot => {
                body.push(p);
                return Ok(body);
            },
            _ => {
                return Err(parse_error("Expected '.' or ',' after predicate"));
            },
        }
    }
}

} // verus!
