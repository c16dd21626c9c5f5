use vstd::prelude::*;
use crate::text::{has_prefix, has_suffix, contains_seq, str_chars, string_chars, str_to_string, push_all, push_string, i64_to_string, int_text, str_contains, str_eq, str_starts_with, ends_with_seq, unicode_uppercase, char_is_uppercase, join};
use crate::datalog::types::{Value, SpecValue, Fact, SpecFact, Term, SpecTerm, Predicate, SpecPredicate, Rule, SpecRule, facts_view, rules_view, preds_view, terms_view, copy_string};
use crate::datalog::store::strings_view;
use crate::datalog::parser::{parse_program, parse_query_body, program_spec, query_spec};
use crate::format::{trimmed, trim_chars};

verus! {

/// The terms of the body's predicates, in order.
pub open spec fn body_terms(body: Seq<SpecPredicate>) -> Seq<SpecTerm>
    decreases body.len(),
{
    if body.len() == 0 {
        Seq::empty()
    } else {
        body_terms(body.drop_last()) + body.last().args
    }
}

/// The variables of the terms, each once, in order of first appearance, without the
/// anonymous ones.
pub open spec fn vars_of(ts: Seq<SpecTerm>) -> Seq<Seq<char>>
    decreases ts.len(),
{
    if ts.len() == 0 {
        Seq::empty()
    } else {
        let prev = vars_of(ts.drop_last());
        match ts.last() {
            SpecTerm::Var(v) => if !has_prefix(v, "_anon_"@) && !prev.contains(v) { prev.push(v) } else { prev },
            _ => prev,
        }
    }
}

/// The query with a final `.`: as it is when its trimmed text ends with one, else trimmed
/// with one added.
pub open spec fn dotted(q: Seq<char>) -> Seq<char> {
    if has_suffix(trimmed(q), "."@) { q } else { trimmed(q) + "."@ }
}

pub open spec fn var_terms(vs: Seq<Seq<char>>) -> Seq<SpecTerm> {
    vs.map_values(|v: Seq<char>| SpecTerm::Var(v))
}

/// The rule `query(V1, ..., Vn) :- body` over the variables of the body.
pub open spec fn query_rule(body: Seq<SpecPredicate>) -> SpecRule {
    SpecRule {
        head: SpecPredicate { name: "query"@, args: var_terms(vars_of(body_terms(body))) },
        body: body,
    }
}

/// How a query is read: without `:-`, a body with variables (given a final `.`) becomes the
/// rule `query(variables) :- body`; otherwise the text is read as a program, as it is and
/// then with a final `.`.
pub open spec fn repl_parse(q: Seq<char>) -> Result<(Seq<SpecFact>, Seq<SpecRule>), ()> {
    let body = if contains_seq(q, ":-"@) {
        None
    } else {
        match query_spec(dotted(q)) {
            Ok(b) => if vars_of(body_terms(b)).len() > 0 { Some(b) } else { None },
            Err(_) => None,
        }
    };
    match body {
        Some(b) => Ok((Seq::empty(), seq![query_rule(b)])),
        None => match program_spec(q) {
            Ok(r) => Ok(r),
            Err(_) => match program_spec(dotted(q)) {
                Ok(r) => Ok(r),
                Err(_) => Err(()),
            },
        },
    }
}

fn dotted_exec(q: &str) -> (r: String)
    ensures
        r@ == dotted(q@),
{
    proof { reveal_strlit("."); }
    let t = trim_chars(&str_chars(q));
    let dot = str_chars(".");
    if ends_with_seq(t.as_slice(), dot.as_slice()) {
        str_to_string(q)
    } else {
        let mut r = crate::text::string_from_chars(t.as_slice());
        push_all(&mut r, ".");
        r
    }
}

fn body_vars(body: &Vec<Predicate>) -> (r: Vec<String>)
    ensures
        strings_view(r@) == vars_of(body_terms(preds_view(body@))),
{
    proof { reveal_strlit("_anon_"); }
    let ghost bv = preds_view(body@);
    let mut out: Vec<String> = Vec::new();
    let ghost mut seen: Seq<SpecTerm> = Seq::empty();
    let mut i: usize = 0;
    assert(bv.take(0) =~= Seq::<SpecPredicate>::empty());
    assert(strings_view(out@) =~= Seq::<Seq<char>>::empty());
    while i < body.len()
        invariant
            i <= body@.len(),
            bv == preds_view(body@),
            seen == body_terms(bv.take(i as int)),
            strings_view(out@) == vars_of(seen),
        decreases body@.len() - i,
    {
        assert(bv.take(i + 1).drop_last() =~= bv.take(i as int));
        assert(bv.take(i + 1).last() == body@[i as int]@);
        let args = &body[i].args;
        let ghost av = terms_view(args@);
        let ghost base = seen;
        let mut j: usize = 0;
        assert(base + av.take(0) =~= base);
        while j < args.len()
            invariant
                j <= args@.len(),
                av == terms_view(args@),
                seen == base + av.take(j as int),
                strings_view(out@) == vars_of(seen),
            decreases args@.len() - j,
        {
            let ghost prev = seen;
            proof {
                seen = base + av.take(j + 1);
                assert(seen.drop_last() =~= prev);
                assert(seen.last() == args@[j as int]@);
            }
            match &args[j] {
                Term::Variable(v) => {
                    if !str_starts_with(v.as_str(), "_anon_") && !crate::datalog::eval::seq_contains_string(&out, v) {
                        let ghost o = strings_view(out@);
                        out.push(copy_string(v));
                        assert(strings_view(out@) =~= o.push(v@));
                    }
                },
                _ => {},
            }
            j = j + 1;
        }
        assert(av.take(j as int) =~= av);
        i = i + 1;
    }
    assert(bv.take(i as int) =~= bv);
    out
}

/// Reads a query (see `repl_parse`).
pub fn parse_query_with_repl_syntax(query: &str) -> (r: Result<(Vec<Fact>, Vec<Rule>), String>)
    ensures
        match (r, repl_parse(query@)) {
            (Ok((fs, rs)), Ok((sfs, srs))) => facts_view(fs@) == sfs && rules_view(rs@) == srs,
            (Err(m), Err(_)) => m@ == "Failed to parse query"@,
            _ => false,
        },
{
    proof { reveal_strlit("query"); }
    let dq = dotted_exec(query);
    if !str_contains(query, ":-") {
        match parse_query_body(dq.as_str()) {
            Ok(body) => {
                let vars = body_vars(&body);
                if vars.len() > 0 {
                    let mut args: Vec<Term> = Vec::new();
                    let mut k: usize = 0;
                    while k < vars.len()
                        invariant
                            k <= vars@.len(),
                            terms_view(args@) == var_terms(strings_view(vars@).take(k as int)),
                        decreases vars@.len() - k,
                    {
                        let ghost prev = terms_view(args@);
                        args.push(Term::Variable(copy_string(&vars[k])));
                        k = k + 1;
                        assert(terms_view(args@) =~= prev.push(SpecTerm::Var(vars@[k - 1]@)));
                        assert(var_terms(strings_view(vars@).take(k as int))
                            =~= var_terms(strings_view(vars@).take(k - 1)).push(SpecTerm::Var(vars@[k - 1]@)));
                    }
                    assert(strings_view(vars@).take(k as int) =~= strings_view(vars@));
                    let head = Predicate { name: str_to_string("query"), args };
                    let rule = Rule { head, body };
                    let mut rules: Vec<Rule> = Vec::new();
                    rules.push(rule);
                    let facts: Vec<Fact> = Vec::new();
                    assert(facts_view(facts@) =~= Seq::<SpecFact>::empty());
                    assert(rules_view(rules@) =~= seq![rules@[0]@]);
                    return Ok((facts, rules));
                }
            },
            Err(_) => {},
        }
    }
    match parse_program(query) {
        Ok(res) => {
            return Ok(res);
        },
        Err(_) => {},
    }
    match parse_program(dq.as_str()) {
        Ok(res) => Ok(res),
        Err(_) => Err(str_to_string("Failed to parse query")),
    }
}

/// How a result shows a value: texts, labels and paths in quotes.
/// The text between double quotes, as a report prints it.
pub open spec fn in_quotes(s: Seq<char>) -> Seq<char> {
    "\""@ + s + "\""@
}

pub open spec fn shown_value(v: SpecValue) -> Seq<char> {
    match v {
        SpecValue::Str(s) => in_quotes(s),
        SpecValue::Int(i) => int_text(i as int),
        SpecValue::Bool(b) => if b { "true"@ } else { "false"@ },
        SpecValue::Label(p, t) => in_quotes(p + ":"@ + t),
        SpecValue::Path(p) => in_quotes(p),
    }
}

/// How a result shows a fact: `p(a, b).`
pub open spec fn shown_fact(f: SpecFact) -> Seq<char> {
    f.predicate + "("@ + join(f.args.map_values(|v: SpecValue| shown_value(v)), ", "@) + ")."@
}

/// How a `source_location` result shows a fact `(name, file, line)`: `file:line - name`;
/// other facts are not shown.
pub open spec fn shown_location(f: SpecFact) -> Seq<char> {
    if f.args.len() == 3 {
        match (f.args[0], f.args[1], f.args[2]) {
            (SpecValue::Str(p), SpecValue::Str(file), SpecValue::Int(line)) =>
                file + ":"@ + int_text(line as int) + " - "@ + p + "\n"@,
            _ => Seq::empty(),
        }
    } else {
        Seq::empty()
    }
}

/// The printed results of a query of `p`: one line per fact.
pub open spec fn query_report_text(p: Seq<char>, fs: Seq<SpecFact>) -> Seq<char>
    decreases fs.len(),
{
    if fs.len() == 0 {
        Seq::empty()
    } else {
        query_report_text(p, fs.drop_last()) + if p == "source_location"@ {
            shown_location(fs.last())
        } else {
            shown_fact(fs.last()) + "\n"@
        }
    }
}

pub fn show_value(v: &Value) -> (r: String)
    ensures
        r@ == shown_value(v@),
{
    let mut r = str_to_string("\"");
    match v {
        Value::String(s) => {
            push_string(&mut r, s);
        },
        Value::Integer(i) => {
            return i64_to_string(*i);
        },
        Value::Bool(b) => {
            return if *b { str_to_string("true") } else { str_to_string("false") };
        },
        Value::Label(l) => {
            let t = l.to_string();
            push_string(&mut r, &t);
        },
        Value::Path(p) => {
            push_string(&mut r, p);
        },
    }
    push_all(&mut r, "\"");
    r
}

/// How a result shows a fact (see `shown_fact`).
pub fn show_fact(f: &Fact) -> (r: String)
    ensures
        r@ == shown_fact(f@),
{
    let mut parts: Vec<String> = Vec::new();
    let mut i: usize = 0;
    let ghost av = crate::datalog::types::values_view(f.args@);
    while i < f.args.len()
        invariant
            i <= f.args@.len(),
            av == crate::datalog::types::values_view(f.args@),
            strings_view(parts@) == av.take(i as int).map_values(|v: SpecValue| shown_value(v)),
        decreases f.args@.len() - i,
    {
        let s = show_value(&f.args[i]);
        let ghost prev = strings_view(parts@);
        parts.push(s);
        i = i + 1;
        assert(strings_view(parts@) =~= prev.push(shown_value(av[i - 1])));
        assert(av.take(i as int).map_values(|v: SpecValue| shown_value(v))
            =~= av.take(i - 1).map_values(|v: SpecValue| shown_value(v)).push(shown_value(av[i - 1])));
    }
    assert(av.take(i as int) =~= av);
    assert(strings_view(parts@) == parts@.map_values(|p: String| p@));
    let joined = crate::text::join_strings(&parts, ", ");
    let mut r = copy_string(&f.predicate);
    push_all(&mut r, "(");
    push_string(&mut r, &joined);
    push_all(&mut r, ").");
    r
}

/// The printed results of a query of `predicate` (see `query_report_text`).
pub fn query_report(predicate: &str, facts: &Vec<Fact>) -> (r: String)
    ensures
        r@ == query_report_text(predicate@, facts_view(facts@)),
{
    let locations = str_eq(predicate, "source_location");
    let ghost fv = facts_view(facts@);
    let mut out = String::new();
    let mut k: usize = 0;
    assert(fv.take(0) =~= Seq::<SpecFact>::empty());
    while k < facts.len()
        invariant
            k <= facts@.len(),
            fv == facts_view(facts@),
            locations == (predicate@ == "source_location"@),
            out@ == query_report_text(predicate@, fv.take(k as int)),
        decreases facts@.len() - k,
    {
        assert(fv.take(k + 1).drop_last() =~= fv.take(k as int));
        let f = &facts[k];
        assert(fv.take(k + 1).last() == f@);
        if locations {
            if f.args.len() == 3 {
                match (&f.args[0], &f.args[1], &f.args[2]) {
                    (Value::String(p), Value::String(file), Value::Integer(line)) => {
                        push_string(&mut out, file);
                        push_all(&mut out, ":");
                        let l = i64_to_string(*line);
                        push_string(&mut out, &l);
                        push_all(&mut out, " - ");
                        push_string(&mut out, p);
                        push_all(&mut out, "\n");
                    },
                    _ => {},
                }
            }
        } else {
            let line = show_fact(f);
            push_string(&mut out, &line);
            push_all(&mut out, "\n");
        }
        k = k + 1;
    }
    assert(fv.take(k as int) =~= fv);
    out
}

/// Whether a fact written in a query stands for a pattern: an argument is a text that starts
/// with an upper-case letter.
pub open spec fn has_pattern_arg(f: SpecFact) -> bool {
    exists|i: int| 0 <= i < f.args.len() && (#[trigger] f.args[i] matches SpecValue::Str(s) && s.len() > 0 && unicode_uppercase(s[0]))
}

/// Whether a fact given to a build holds a variable: an argument is `_`, a text that starts
/// with an upper-case letter, or an anonymous variable.
pub open spec fn has_variable_arg(f: SpecFact) -> bool {
    exists|i: int| 0 <= i < f.args.len() && (#[trigger] f.args[i] matches SpecValue::Str(s)
        && (s == "_"@ || (s.len() > 0 && unicode_uppercase(s[0])) || has_prefix(s, "_anon_"@)))
}

fn starts_upper(s: &String) -> (r: bool)
    ensures
        r == (s@.len() > 0 && unicode_uppercase(s@[0])),
{
    let cs = string_chars(s);
    cs.len() > 0 && char_is_uppercase(cs[0])
}

/// Whether a fact written in a query stands for a pattern (see `has_pattern_arg`).
pub fn is_pattern_fact(f: &Fact) -> (r: bool)
    ensures
        r == has_pattern_arg(f@),
{
    let mut i: usize = 0;
    while i < f.args.len()
        invariant
            i <= f.args@.len(),
            forall|j: int| 0 <= j < i ==> !(#[trigger] f@.args[j] matches SpecValue::Str(s) && s.len() > 0 && unicode_uppercase(s[0])),
        decreases f.args@.len() - i,
    {
        assert(f@.args[i as int] == f.args@[i as int]@);
        match &f.args[i] {
            Value::String(s) => {
                if starts_upper(s) {
                    return true;
                }
            },
            _ => {},
        }
        i = i + 1;
    }
    false
}

/// Whether a fact given to a build holds a variable (see `has_variable_arg`).
pub fn has_variables(f: &Fact) -> (r: bool)
    ensures
        r == has_variable_arg(f@),
{
    proof { reveal_strlit("_"); reveal_strlit("_anon_"); }
    let mut i: usize = 0;
    while i < f.args.len()
        invariant
            i <= f.args@.len(),
            forall|j: int| 0 <= j < i ==> !(#[trigger] f@.args[j] matches SpecValue::Str(s)
                && (s == "_"@ || (s.len() > 0 && unicode_uppercase(s[0])) || has_prefix(s, "_anon_"@))),
        decreases f.args@.len() - i,
    {
        assert(f@.args[i as int] == f.args@[i as int]@);
        match &f.args[i] {
            Value::String(s) => {
                if str_eq(s.as_str(), "_") || starts_upper(s) || str_starts_with(s.as_str(), "_anon_") {
                    return true;
                }
            },
            _ => {},
        }
        i = i + 1;
    }
    false
}

/// The warning for a fact given to a build that holds a variable.
pub open spec fn variable_warning(f: SpecFact) -> Seq<char> {
    "Warning: Facts cannot contain variables: "@ + shown_fact(f) + "\n"@
        + "         Did you mean: "@ + f.predicate + "(X) :- target(X). ?\n"@
        + "         (Use a rule to quantify over all targets)\n"@
}

/// The warning for a fact given to a build that holds a variable (see `variable_warning`).
pub fn variable_fact_warning(f: &Fact) -> (r: String)
    ensures
        r@ == variable_warning(f@),
{
    let shown = show_fact(f);
    let mut r = str_to_string("Warning: Facts cannot contain variables: ");
    push_string(&mut r, &shown);
    push_all(&mut r, "\n");
    push_all(&mut r, "         Did you mean: ");
    push_string(&mut r, &f.predicate);
    push_all(&mut r, "(X) :- target(X). ?\n");
    push_all(&mut r, "         (Use a rule to quantify over all targets)\n");
    r
}

proof fn lemma_body_terms_has(body: Seq<SpecPredicate>, k: int, j: int)
    requires
        0 <= k < body.len(),
        0 <= j < body[k].args.len(),
    ensures
        body_terms(body).contains(body[k].args[j]),
    decreases body.len(),
{
    let prev = body_terms(body.drop_last());
    let last = body.last().args;
    if k == body.len() - 1 {
        assert((prev + last)[prev.len() + j] == last[j]);
    } else {
        assert(body.drop_last()[k] == body[k]);
        lemma_body_terms_has(body.drop_last(), k, j);
        let m = choose|m: int| 0 <= m < prev.len() && prev[m] == body[k].args[j];
        assert((prev + last)[m] == prev[m]);
    }
}

proof fn lemma_vars_of(ts: Seq<SpecTerm>)
    ensures
        forall|i: int| 0 <= i < ts.len() && (#[trigger] ts[i] matches SpecTerm::Var(v) && !has_prefix(v, "_anon_"@))
            ==> vars_of(ts).contains(ts[i]->Var_0),
        forall|a: int, b: int| 0 <= a < b < vars_of(ts).len() ==> vars_of(ts)[a] != vars_of(ts)[b],
        forall|a: int| 0 <= a < vars_of(ts).len() ==> ts.contains(SpecTerm::Var(#[trigger] vars_of(ts)[a]))
            && !has_prefix(vars_of(ts)[a], "_anon_"@),
    decreases ts.len(),
{
    if ts.len() > 0 {
        let d = ts.drop_last();
        lemma_vars_of(d);
        let prev = vars_of(d);
        let r = vars_of(ts);
        assert forall|i: int| 0 <= i < ts.len() && (#[trigger] ts[i] matches SpecTerm::Var(v) && !has_prefix(v, "_anon_"@))
            implies r.contains(ts[i]->Var_0) by {
            let v = ts[i]->Var_0;
            if i < ts.len() - 1 {
                assert(d[i] == ts[i]);
                let m = choose|m: int| 0 <= m < prev.len() && prev[m] == v;
                if r != prev {
                    assert(r[m] == prev[m]);
                }
            } else if !prev.contains(v) {
                assert(r[prev.len() as int] == v);
            }
        }
        assert forall|a: int| 0 <= a < r.len() implies ts.contains(SpecTerm::Var(#[trigger] r[a]))
            && !has_prefix(r[a], "_anon_"@) by {
            if a < prev.len() {
                assert(r[a] == prev[a]);
                let m = choose|m: int| 0 <= m < d.len() && d[m] == SpecTerm::Var(prev[a]);
                assert(ts[m] == d[m]);
            } else {
                assert(ts[ts.len() - 1] == ts.last());
            }
        }
    }
}

/// The head of a query rule holds every variable of its body that is not a wildcard, each
/// once, and nothing but variables of the body.
pub proof fn law_query_head_holds_body_variables(body: Seq<SpecPredicate>)
    ensures ({
        let h = query_rule(body).head.args;
        &&& forall|k: int, j: int| 0 <= k < body.len() && 0 <= j < body[k].args.len()
            && (#[trigger] body[k].args[j] matches SpecTerm::Var(v) && !has_prefix(v, "_anon_"@))
            ==> h.contains(body[k].args[j])
        &&& forall|a: int, b: int| 0 <= a < b < h.len() ==> h[a] != h[b]
        &&& forall|a: int| 0 <= a < h.len() ==> (#[trigger] h[a] is Var) && body_terms(body).contains(h[a])
    }),
{
    let ts = body_terms(body);
    let vs = vars_of(ts);
    let h = query_rule(body).head.args;
    lemma_vars_of(ts);
    assert(h == var_terms(vs));
    assert forall|k: int, j: int| 0 <= k < body.len() && 0 <= j < body[k].args.len()
        && (#[trigger] body[k].args[j] matches SpecTerm::Var(v) && !has_prefix(v, "_anon_"@))
        implies h.contains(body[k].args[j]) by {
        lemma_body_terms_has(body, k, j);
        let t = body[k].args[j];
        let i = choose|i: int| 0 <= i < ts.len() && ts[i] == t;
        let m = choose|m: int| 0 <= m < vs.len() && vs[m] == t->Var_0;
        assert(h[m] == SpecTerm::Var(vs[m]));
    }
    assert forall|a: int, b: int| 0 <= a < b < h.len() implies h[a] != h[b] by {
        assert(h[a] == SpecTerm::Var(vs[a]) && h[b] == SpecTerm::Var(vs[b]));
    }
    assert forall|a: int| 0 <= a < h.len() implies (#[trigger] h[a] is Var) && ts.contains(h[a]) by {
        assert(h[a] == SpecTerm::Var(vs[a]));
    }
}

proof fn lemma_vars_of_order(ts: Seq<SpecTerm>, a: int, b: int, j: int)
    requires
        0 <= a < b < vars_of(ts).len(),
        0 <= j < ts.len(),
        ts[j] == SpecTerm::Var(vars_of(ts)[b]),
    ensures
        exists|i: int| 0 <= i < j && #[trigger] ts[i] == SpecTerm::Var(vars_of(ts)[a]),
    decreases ts.len(),
{
    let d = ts.drop_last();
    let prev = vars_of(d);
    let r = vars_of(ts);
    lemma_vars_of(d);
    assert(r.len() <= prev.len() + 1);
    assert(r.take(prev.len() as int) =~= prev || r =~= prev);
    assert(r[a] == prev[a]);
    assert(d.contains(SpecTerm::Var(prev[a])));
    if b < prev.len() {
        assert(r[b] == prev[b]);
        if j < ts.len() - 1 {
            assert(d[j] == ts[j]);
            lemma_vars_of_order(d, a, b, j);
            let i = choose|i: int| 0 <= i < j && #[trigger] d[i] == SpecTerm::Var(prev[a]);
            assert(ts[i] == d[i]);
        } else {
            assert(d.contains(SpecTerm::Var(prev[b])));
            let j2 = choose|j2: int| 0 <= j2 < d.len() && d[j2] == SpecTerm::Var(prev[b]);
            lemma_vars_of_order(d, a, b, j2);
            let i = choose|i: int| 0 <= i < j2 && #[trigger] d[i] == SpecTerm::Var(prev[a]);
            assert(ts[i] == d[i]);
        }
    } else {
        let v = r[b];
        assert(r == prev.push(v));
        assert(!prev.contains(v));
        if j < ts.len() - 1 {
            assert(d[j] == ts[j]);
            assert(!has_prefix(v, "_anon_"@));
            assert(d[j] matches SpecTerm::Var(w) && !has_prefix(w, "_anon_"@));
            assert(prev.contains(d[j]->Var_0));
            assert(false);
        }
        let i = choose|i: int| 0 <= i < d.len() && d[i] == SpecTerm::Var(prev[a]);
        assert(ts[i] == d[i]);
    }
}

/// The variables of a query rule's head come in the order of their first appearance in the
/// body: wherever a later head variable occurs in the body, an earlier one occurs before it.
pub proof fn law_query_head_in_first_appearance_order(body: Seq<SpecPredicate>, a: int, b: int, j: int)
    requires
        0 <= a < b < query_rule(body).head.args.len(),
        0 <= j < body_terms(body).len(),
        body_terms(body)[j] == query_rule(body).head.args[b],
    ensures
        exists|i: int| 0 <= i < j && #[trigger] body_terms(body)[i] == query_rule(body).head.args[a],
{
    let ts = body_terms(body);
    let vs = vars_of(ts);
    let h = query_rule(body).head.args;
    assert(h == var_terms(vs));
    assert(h[b] == SpecTerm::Var(vs[b]));
    assert(h[a] == SpecTerm::Var(vs[a]));
    lemma_vars_of_order(ts, a, b, j);
    let i = choose|i: int| 0 <= i < j && #[trigger] ts[i] == SpecTerm::Var(vs[a]);
    assert(ts[i] == h[a]);
}

} // verus!
