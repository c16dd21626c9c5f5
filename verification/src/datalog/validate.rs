use vstd::prelude::*;
use crate::text::{has_prefix, str_starts_with, str_to_string, push_string, push_all, string_chars, string_from_range, string_from_chars, u64_digits, nat_digits};
use crate::datalog::types::{SpecTerm, SpecPredicate, SpecRule, Term, Predicate, Rule, rules_view, preds_view, terms_view, copy_string};
use crate::datalog::binding::is_anon;
use crate::datalog::builtins::{special_name, is_special_predicate};
use crate::datalog::store::{strings_view, rules_for};
use crate::datalog::semantics::add_names;
use crate::datalog::eval::{rules_for_exec, picked};

verus! {

/// Whether `v` occurs as a variable of a body predicate that is not negated.
pub open spec fn in_positive_body(body: Seq<SpecPredicate>, v: Seq<char>) -> bool {
    exists|j: int, k: int| 0 <= j < body.len() && 0 <= k < body[j].args.len()
        && !has_prefix(body[j].name, "not:"@) && #[trigger] body[j].args[k] == SpecTerm::Var(v)
}

/// Whether every named variable of the head occurs in a body predicate that is not negated.
pub open spec fn rule_safe(r: SpecRule) -> bool {
    forall|i: int| 0 <= i < r.head.args.len() ==> match #[trigger] r.head.args[i] {
        SpecTerm::Var(v) => is_anon(v) || in_positive_body(r.body, v),
        _ => true,
    }
}

/// A body predicate's name without its `not:` prefix.
pub open spec fn stripped(name: Seq<char>) -> Seq<char> {
    if has_prefix(name, "not:"@) { name.skip(4) } else { name }
}

/// The predicates that the body predicates `body[..n]` depend on, negated or not.
pub open spec fn used_names(body: Seq<SpecPredicate>, n: int) -> Seq<Seq<char>>
    decreases n,
{
    if n <= 0 {
        Seq::empty()
    } else {
        let prev = used_names(body, n - 1);
        let q = stripped(body[n - 1].name);
        if !special_name(q) { prev.push(q) } else { prev }
    }
}

/// One pass over `rules[..n]`, adding what the rules of predicates in `acc` depend on.
pub open spec fn use_pass(rules: Seq<SpecRule>, acc: Seq<Seq<char>>, n: int) -> Seq<Seq<char>>
    decreases n,
{
    if n <= 0 {
        acc
    } else {
        let prev = use_pass(rules, acc, n - 1);
        let r = rules[n - 1];
        if prev.contains(r.head.name) { add_names(prev, used_names(r.body, r.body.len() as int)) } else { prev }
    }
}

/// The predicates that `s` depends on through rules, found by at most `fuel` passes.
pub open spec fn use_closure(rules: Seq<SpecRule>, s: Seq<Seq<char>>, fuel: nat) -> Seq<Seq<char>>
    decreases fuel,
{
    if fuel == 0 {
        s
    } else {
        let next = use_pass(rules, s, rules.len() as int);
        if next.len() == s.len() { s } else { use_closure(rules, next, (fuel - 1) as nat) }
    }
}

/// Whether `to` is `from` or something `from` depends on through the rules.
pub open spec fn reaches(rules: Seq<SpecRule>, from: Seq<char>, to: Seq<char>) -> bool {
    use_closure(rules, seq![from], (rules.len() + 1) as nat).contains(to)
}

/// Whether no negated predicate of `r` depends on `r`'s head.
pub open spec fn negations_ok(rules: Seq<SpecRule>, r: SpecRule) -> bool {
    forall|j: int| 0 <= j < r.body.len() && has_prefix(#[trigger] r.body[j].name, "not:"@)
        ==> !reaches(rules, r.body[j].name.skip(4), r.head.name)
}

/// Whether, with the new rule added, no rule negates a predicate that depends on its head.
pub open spec fn stratified_with(rules: Seq<SpecRule>, r: SpecRule) -> bool {
    let all = rules.push(r);
    negations_ok(all, r) && forall|i: int| 0 <= i < rules.len() ==> negations_ok(all, #[trigger] rules[i])
}

/// Whether the new rule's head has as many arguments as the first rule of the same name.
pub open spec fn arity_ok(rules: Seq<SpecRule>, r: SpecRule) -> bool {
    let rs = rules_for(rules, r.head.name);
    rs.len() == 0 || rs[0].head.args.len() == r.head.args.len()
}

/// Whether a rule may be added to the rules: it is safe, keeps negation stratified, and
/// agrees in arity with the rules of its name.
pub open spec fn rule_valid(rules: Seq<SpecRule>, r: SpecRule) -> bool {
    rule_safe(r) && stratified_with(rules, r) && arity_ok(rules, r)
}

fn var_in_positive_body(body: &Vec<Predicate>, v: &String) -> (r: bool)
    ensures
        r == in_positive_body(preds_view(body@), v@),
{
    let ghost bv = preds_view(body@);
    let mut j: usize = 0;
    while j < body.len()
        invariant
            j <= body@.len(),
            bv == preds_view(body@),
            forall|jj: int, k: int| 0 <= jj < j && 0 <= k < bv[jj].args.len() && !has_prefix(bv[jj].name, "not:"@)
                ==> bv[jj].args[k] != SpecTerm::Var(v@),
        decreases body@.len() - j,
    {
        let p = &body[j];
        assert(bv[j as int] == p@);
        if !str_starts_with(p.name.as_str(), "not:") {
            let mut k: usize = 0;
            while k < p.args.len()
                invariant
                    k <= p.args@.len(),
                    j < body@.len(),
                    bv == preds_view(body@),
                    bv[j as int] == p@,
                    !has_prefix(bv[j as int].name, "not:"@),
                    forall|kk: int| 0 <= kk < k ==> bv[j as int].args[kk] != SpecTerm::Var(v@),
                decreases p.args@.len() - k,
            {
                assert(bv[j as int].args[k as int] == p.args@[k as int]@);
                match &p.args[k] {
                    Term::Variable(x) => {
                        if crate::datalog::types::string_eq(x, v) {
                            assert(bv[j as int].args[k as int] == SpecTerm::Var(v@));
                            return true;
                        }
                    },
                    _ => {},
                }
                k = k + 1;
            }
        }
        j = j + 1;
    }
    false
}

/// The first named head variable that no body predicate that is not negated binds.
/// The first named head variable of `r`, from position `i` on, that occurs in no body
/// predicate that is not negated.
pub open spec fn first_unsafe_from(r: SpecRule, i: int) -> Option<Seq<char>>
    decreases r.head.args.len() - i,
{
    if i < 0 || i >= r.head.args.len() {
        None
    } else {
        match r.head.args[i] {
            SpecTerm::Var(v) => if !is_anon(v) && !in_positive_body(r.body, v) {
                Some(v)
            } else {
                first_unsafe_from(r, i + 1)
            },
            _ => first_unsafe_from(r, i + 1),
        }
    }
}

/// The first negated predicate of `r`, from body position `j` on, that depends on `r`'s head.
pub open spec fn bad_negation_from(rules: Seq<SpecRule>, r: SpecRule, j: int) -> Option<Seq<char>>
    decreases r.body.len() - j,
{
    if j < 0 || j >= r.body.len() {
        None
    } else if has_prefix(r.body[j].name, "not:"@) && reaches(rules, r.body[j].name.skip(4), r.head.name) {
        Some(r.body[j].name.skip(4))
    } else {
        bad_negation_from(rules, r, j + 1)
    }
}

/// The head and negated predicate of the first of `rules[k..]` whose negation depends on its head.
pub open spec fn first_bad_rule(all: Seq<SpecRule>, rules: Seq<SpecRule>, k: int) -> (Seq<char>, Seq<char>)
    decreases rules.len() - k,
{
    if k < 0 || k >= rules.len() {
        (Seq::empty(), Seq::empty())
    } else {
        match bad_negation_from(all, rules[k], 0) {
            Some(p) => (rules[k].head.name, p),
            None => first_bad_rule(all, rules, k + 1),
        }
    }
}

/// The rule (its head) and the negated predicate that break stratification: the new rule's
/// first, else those of the first rule there was.
pub open spec fn strat_failure(rules: Seq<SpecRule>, r: SpecRule) -> (Seq<char>, Seq<char>) {
    match bad_negation_from(rules.push(r), r, 0) {
        Some(p) => (r.head.name, p),
        None => first_bad_rule(rules.push(r), rules, 0),
    }
}

/// The refusal of a negation of `p` in a rule for `h` where `p` depends on `h`.
pub open spec fn strat_msg(h: Seq<char>, p: Seq<char>) -> Seq<char> {
    "Non-stratified negation: "@ + h + " depends on not("@ + p + ") but "@ + p + " recursively depends on "@ + h
}

/// Why a rule is refused (when it is): its first unsafe head variable; else that it breaks
/// stratification; else that its arity differs from that of the rules of its name.
pub open spec fn rule_error(rules: Seq<SpecRule>, r: SpecRule) -> Seq<char> {
    match first_unsafe_from(r, 0) {
        Some(v) => "Variable '"@ + v + "' appears in head but not in positive body literal (safety violation)"@,
        None => if !stratified_with(rules, r) {
            strat_msg(strat_failure(rules, r).0, strat_failure(rules, r).1)
        } else {
            "Arity mismatch: predicate '"@ + r.head.name + "' used with "@
                + nat_digits(rules_for(rules, r.head.name)[0].head.args.len()) + " and "@
                + nat_digits(r.head.args.len()) + " arguments"@
        },
    }
}

fn unsafe_head_var(rule: &Rule) -> (r: Option<String>)
    ensures
        r is None <==> rule_safe(rule@),
        match r {
            Some(v) => first_unsafe_from(rule@, 0) == Some(v@),
            None => first_unsafe_from(rule@, 0) is None,
        },
{
    let ghost rv = rule@;
    let mut i: usize = 0;
    while i < rule.head.args.len()
        invariant
            i <= rule.head.args@.len(),
            rv == rule@,
            first_unsafe_from(rv, 0) == first_unsafe_from(rv, i as int),
            forall|ii: int| 0 <= ii < i ==> match #[trigger] rv.head.args[ii] {
                SpecTerm::Var(v) => is_anon(v) || in_positive_body(rv.body, v),
                _ => true,
            },
        decreases rule.head.args@.len() - i,
    {
        assert(rv.head.args[i as int] == rule.head.args@[i as int]@);
        match &rule.head.args[i] {
            Term::Variable(v) => {
                if !str_starts_with(v.as_str(), "_anon_") && !var_in_positive_body(&rule.body, v) {
                    return Some(copy_string(v));
                }
            },
            _ => {},
        }
        i = i + 1;
    }
    None
}

fn contains_name(s: &Vec<String>, q: &String) -> (r: bool)
    ensures
        r == strings_view(s@).contains(q@),
{
    let mut i: usize = 0;
    while i < s.len()
        invariant
            i <= s@.len(),
            forall|j: int| 0 <= j < i ==> s@[j]@ != q@,
        decreases s@.len() - i,
    {
        if crate::datalog::types::string_eq(&s[i], q) {
            assert(strings_view(s@)[i as int] == q@);
            return true;
        }
        i = i + 1;
    }
    proof {
        if strings_view(s@).contains(q@) {
            let j = choose|j: int| 0 <= j < strings_view(s@).len() && strings_view(s@)[j] == q@;
            assert(s@[j]@ == q@);
        }
    }
    false
}

fn strip_not(name: &String) -> (r: String)
    ensures
        r@ == stripped(name@),
{
    if str_starts_with(name.as_str(), "not:") {
        proof { reveal_strlit("not:"); }
        let cs = string_chars(name);
        let r = string_from_range(cs.as_slice(), 4, cs.len());
        assert(cs@.subrange(4, cs@.len() as int) =~= name@.skip(4));
        r
    } else {
        copy_string(name)
    }
}

fn used_names_exec(body: &Vec<Predicate>) -> (r: Vec<String>)
    ensures
        strings_view(r@) == used_names(preds_view(body@), body@.len() as int),
{
    let ghost bv = preds_view(body@);
    let mut out: Vec<String> = Vec::new();
    let mut i: usize = 0;
    assert(strings_view(out@) =~= Seq::<Seq<char>>::empty());
    while i < body.len()
        invariant
            i <= body@.len(),
            bv == preds_view(body@),
            strings_view(out@) == used_names(bv, i as int),
        decreases body@.len() - i,
    {
        assert(bv[i as int].name == body@[i as int].name@);
        let q = strip_not(&body[i].name);
        if !is_special_predicate(q.as_str()) {
            let ghost prev = out@;
            let ghost qv = q@;
            out.push(q);
            assert(strings_view(out@) =~= strings_view(prev).push(qv));
        }
        i = i + 1;
    }
    out
}

fn add_names_to(acc: &mut Vec<String>, names: &Vec<String>)
    ensures
        strings_view(final(acc)@) == add_names(strings_view(old(acc)@), strings_view(names@)),
{
    let ghost start = strings_view(acc@);
    let ghost nv = strings_view(names@);
    let mut i: usize = 0;
    assert(nv.take(0) =~= Seq::<Seq<char>>::empty());
    while i < names.len()
        invariant
            i <= names@.len(),
            nv == strings_view(names@),
            strings_view(acc@) == add_names(start, nv.take(i as int)),
        decreases names@.len() - i,
    {
        assert(nv.take(i + 1).drop_last() =~= nv.take(i as int));
        assert(nv.take(i + 1).last() == names@[i as int]@);
        if !contains_name(acc, &names[i]) {
            let ghost prev = acc@;
            acc.push(copy_string(&names[i]));
            assert(strings_view(acc@) =~= strings_view(prev).push(names@[i as int]@));
        }
        i = i + 1;
    }
    assert(nv.take(i as int) =~= nv);
}

fn use_pass_exec(rules: &Vec<Rule>, acc: &mut Vec<String>)
    ensures
        strings_view(final(acc)@) == use_pass(rules_view(rules@), strings_view(old(acc)@), rules@.len() as int),
{
    let ghost rv = rules_view(rules@);
    let ghost start = strings_view(acc@);
    let mut i: usize = 0;
    while i < rules.len()
        invariant
            i <= rules@.len(),
            rv == rules_view(rules@),
            strings_view(acc@) == use_pass(rv, start, i as int),
        decreases rules@.len() - i,
    {
        assert(rv[i as int] == rules@[i as int]@);
        if contains_name(acc, &rules[i].head.name) {
            let names = used_names_exec(&rules[i].body);
            add_names_to(acc, &names);
        }
        i = i + 1;
    }
}

proof fn lemma_add_names_len(acc: Seq<Seq<char>>, names: Seq<Seq<char>>)
    ensures
        add_names(acc, names).len() >= acc.len(),
    decreases names.len(),
{
    if names.len() > 0 {
        lemma_add_names_len(acc, names.drop_last());
    }
}

proof fn lemma_use_pass_len(rules: Seq<SpecRule>, acc: Seq<Seq<char>>, n: int)
    ensures
        use_pass(rules, acc, n).len() >= acc.len(),
    decreases n,
{
    if n > 0 {
        lemma_use_pass_len(rules, acc, n - 1);
        let prev = use_pass(rules, acc, n - 1);
        let r = rules[n - 1];
        lemma_add_names_len(prev, used_names(r.body, r.body.len() as int));
    }
}

/// Whether `to` is `from` or something `from` depends on through the rules.
fn reaches_exec(rules: &Vec<Rule>, from: &String, to: &String) -> (r: bool)
    ensures
        r == reaches(rules_view(rules@), from@, to@),
{
    let ghost rv = rules_view(rules@);
    let mut s: Vec<String> = Vec::new();
    s.push(copy_string(from));
    let ghost init = strings_view(s@);
    assert(init =~= seq![from@]);
    let mut remaining: usize = rules.len();
    let ghost total: nat = (rules@.len() + 1) as nat;
    loop
        invariant
            rv == rules_view(rules@),
            remaining <= rules@.len(),
            init == seq![from@],
            total == (rules@.len() + 1) as nat,
            use_closure(rv, init, total) == use_closure(rv, strings_view(s@), (remaining + 1) as nat),
        decreases remaining,
    {
        let before = s.len();
        let ghost sv = strings_view(s@);
        let snapshot = crate::datalog::store::copy_strings(&s);
        use_pass_exec(rules, &mut s);
        if s.len() == before {
            return contains_name(&snapshot, to);
        }
        if remaining == 0 {
            assert(use_closure(rv, strings_view(s@), 0) == strings_view(s@));
            return contains_name(&s, to);
        }
        remaining = remaining - 1;
    }
}

/// The first negated predicate of `r` that depends on `r`'s head, given all rules.
fn bad_negation_exec(all: &Vec<Rule>, r: &Rule) -> (bad: Option<String>)
    ensures
        bad is None <==> negations_ok(rules_view(all@), r@),
        match bad {
            Some(p) => bad_negation_from(rules_view(all@), r@, 0) == Some(p@),
            None => bad_negation_from(rules_view(all@), r@, 0) is None,
        },
{
    let ghost rv = r@;
    let mut j: usize = 0;
    while j < r.body.len()
        invariant
            j <= r.body@.len(),
            rv == r@,
            bad_negation_from(rules_view(all@), rv, 0) == bad_negation_from(rules_view(all@), rv, j as int),
            forall|jj: int| 0 <= jj < j && has_prefix(#[trigger] rv.body[jj].name, "not:"@)
                ==> !reaches(rules_view(all@), rv.body[jj].name.skip(4), rv.head.name),
        decreases r.body@.len() - j,
    {
        assert(rv.body[j as int].name == r.body@[j as int].name@);
        if str_starts_with(r.body[j].name.as_str(), "not:") {
            let inner = strip_not(&r.body[j].name);
            if reaches_exec(all, &inner, &r.head.name) {
                return Some(inner);
            }
        }
        j = j + 1;
    }
    None
}

fn copy_term_v(t: &Term) -> (r: Term)
    ensures
        r@ == t@,
{
    match t {
        Term::Variable(v) => Term::Variable(copy_string(v)),
        Term::Constant(c) => Term::Constant(crate::datalog::types::copy_value(c)),
    }
}

/// A deep copy of a predicate.
pub fn copy_predicate(p: &Predicate) -> (r: Predicate)
    ensures
        r@ == p@,
{
    let mut args: Vec<Term> = Vec::new();
    let mut i: usize = 0;
    while i < p.args.len()
        invariant
            i <= p.args@.len(),
            terms_view(args@) == terms_view(p.args@.take(i as int)),
        decreases p.args@.len() - i,
    {
        let t = copy_term_v(&p.args[i]);
        let ghost prev = args@;
        args.push(t);
        i = i + 1;
        assert(terms_view(args@) =~= terms_view(prev).push(t@));
        assert(terms_view(p.args@.take(i as int)) =~= terms_view(p.args@.take(i - 1)).push(p.args@[i - 1]@));
    }
    assert(p.args@.take(i as int) =~= p.args@);
    Predicate { name: copy_string(&p.name), args }
}

/// A deep copy of a rule.
pub fn copy_rule(r: &Rule) -> (out: Rule)
    ensures
        out@ == r@,
{
    let mut body: Vec<Predicate> = Vec::new();
    let mut i: usize = 0;
    while i < r.body.len()
        invariant
            i <= r.body@.len(),
            preds_view(body@) == preds_view(r.body@.take(i as int)),
        decreases r.body@.len() - i,
    {
        let p = copy_predicate(&r.body[i]);
        let ghost prev = body@;
        body.push(p);
        i = i + 1;
        assert(preds_view(body@) =~= preds_view(prev).push(p@));
        assert(preds_view(r.body@.take(i as int)) =~= preds_view(r.body@.take(i - 1)).push(r.body@[i - 1]@));
    }
    assert(r.body@.take(i as int) =~= r.body@);
    Rule { head: copy_predicate(&r.head), body }
}

fn strat_text(h: &String, p: &String) -> (m: String)
    ensures
        m@ == strat_msg(h@, p@),
{
    let mut m = str_to_string("Non-stratified negation: ");
    push_string(&mut m, h);
    push_all(&mut m, " depends on not(");
    push_string(&mut m, p);
    push_all(&mut m, ") but ");
    push_string(&mut m, p);
    push_all(&mut m, " recursively depends on ");
    push_string(&mut m, h);
    m
}

/// Checks a rule against the rules there are: `Ok` exactly when it is safe, keeps negation
/// stratified, and has the arity of the rules of its name.
pub fn validate_rule(rules: &Vec<Rule>, rule: &Rule) -> (r: Result<(), String>)
    ensures
        r is Ok <==> rule_valid(rules_view(rules@), rule@),
        r matches Err(m) ==> m@ == rule_error(rules_view(rules@), rule@),
{
    match unsafe_head_var(rule) {
        Some(v) => {
            let mut m = str_to_string("Variable '");
            push_string(&mut m, &v);
            push_all(&mut m, "' appears in head but not in positive body literal (safety violation)");
            return Err(m);
        },
        None => {},
    }
    let mut all: Vec<Rule> = Vec::new();
    let mut i: usize = 0;
    while i < rules.len()
        invariant
            i <= rules@.len(),
            rules_view(all@) == rules_view(rules@.take(i as int)),
        decreases rules@.len() - i,
    {
        let c = copy_rule(&rules[i]);
        let ghost prev = all@;
        all.push(c);
        i = i + 1;
        assert(rules_view(all@) =~= rules_view(prev).push(c@));
        assert(rules_view(rules@.take(i as int)) =~= rules_view(rules@.take(i - 1)).push(rules@[i - 1]@));
    }
    assert(rules@.take(i as int) =~= rules@);
    let ghost before = rules_view(all@);
    all.push(copy_rule(rule));
    let ghost av = rules_view(all@);
    assert(av =~= rules_view(rules@).push(rule@));
    match bad_negation_exec(&all, rule) {
        Some(p) => {
            return Err(strat_text(&rule.head.name, &p));
        },
        None => {},
    }
    let mut k: usize = 0;
    while k < rules.len()
        invariant
            k <= rules@.len(),
            av == rules_view(all@),
            av == rules_view(rules@).push(rule@),
            first_unsafe_from(rule@, 0) is None,
            bad_negation_from(av, rule@, 0) is None,
            first_bad_rule(av, rules_view(rules@), 0) == first_bad_rule(av, rules_view(rules@), k as int),
            forall|kk: int| 0 <= kk < k ==> negations_ok(av, #[trigger] rules_view(rules@)[kk]),
        decreases rules@.len() - k,
    {
        assert(rules_view(rules@)[k as int] == rules@[k as int]@);
        match bad_negation_exec(&all, &rules[k]) {
            Some(p) => {
                return Err(strat_text(&rules[k].head.name, &p));
            },
            None => {},
        }
        k = k + 1;
    }
    let rs = rules_for_exec(rules, rule.head.name.as_str());
    if rs.len() > 0 {
        let first = rs[0];
        assert(picked(rules_view(rules@), rs@)[0] == rules@[first as int]@);
        if rules[first].head.args.len() != rule.head.args.len() {
            let mut m = str_to_string("Arity mismatch: predicate '");
            push_string(&mut m, &rule.head.name);
            push_all(&mut m, "' used with ");
            let a = string_from_chars(u64_digits(rules[first].head.args.len() as u64).as_slice());
            push_string(&mut m, &a);
            push_all(&mut m, " and ");
            let b = string_from_chars(u64_digits(rule.head.args.len() as u64).as_slice());
            push_string(&mut m, &b);
            push_all(&mut m, " arguments");
            return Err(m);
        }
    }
    Ok(())
}

} // verus!
