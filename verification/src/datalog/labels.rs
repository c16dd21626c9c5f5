use vstd::prelude::*;
use crate::text::{has_prefix, contains_seq, occurs_at, str_chars, string_chars, str_eq, str_to_string, push_all, push_string, starts_with_seq, string_from_range};
use crate::datalog::types::{copy_value, Value, SpecValue, Fact, SpecFact, Rule, SpecRule, SourceLocation, values_view, facts_view, rules_view};
use crate::datalog::parser::{parse_program, program_spec};
use crate::datalog::locations::Locations;

verus! {

/// Whether a string is a target label: it starts with `//` and holds a `:`.
pub open spec fn is_label_text(s: Seq<char>) -> bool {
    has_prefix(s, "//"@) && contains_seq(s, ":"@)
}

/// The number of non-overlapping `//` pairs in `s`, counted from the left.
pub open spec fn slash_pairs(s: Seq<char>) -> nat
    decreases s.len(),
{
    if s.len() >= 2 && s[0] == '/' && s[1] == '/' {
        1 + slash_pairs(s.skip(2))
    } else if s.len() > 0 {
        slash_pairs(s.skip(1))
    } else {
        0
    }
}

/// How a label written in a package is qualified by the namespace `ns` of that package:
/// `//:t` becomes `ns:t`; under a one-level package `//sub`, `//pkg:t` becomes `//sub/pkg:t`;
/// under a deeper namespace the label is appended to it; fully qualified labels stay.
pub open spec fn rewritten_label(label: Seq<char>, ns: Seq<char>) -> Seq<char> {
    if slash_pairs(label) > 1 {
        label
    } else if has_prefix(label, "//:"@) {
        ns + ":"@ + label.skip(3)
    } else {
        let path = if has_prefix(ns, "//"@) { ns.skip(2) } else { ns };
        if contains_seq(path, "/"@) {
            ns + label
        } else if path.len() > 0 && has_prefix(label, "//"@) {
            ns + "/"@ + label.skip(2)
        } else {
            label
        }
    }
}

pub open spec fn rewritten_value(v: SpecValue, ns: Seq<char>) -> SpecValue {
    match v {
        SpecValue::Str(s) => if is_label_text(s) { SpecValue::Str(rewritten_label(s, ns)) } else { v },
        _ => v,
    }
}

pub open spec fn rewritten_fact(f: SpecFact, ns: Seq<char>) -> SpecFact {
    SpecFact { predicate: f.predicate, args: f.args.map_values(|v: SpecValue| rewritten_value(v, ns)) }
}

/// The facts of a program read in the namespace `ns`.
pub open spec fn facts_in_namespace(fs: Seq<SpecFact>, ns: Seq<char>) -> Seq<SpecFact> {
    if ns == "//"@ {
        fs
    } else {
        fs.map_values(|f: SpecFact| rewritten_fact(f, ns))
    }
}

/// The predicates whose first argument names the target that they define.
pub open spec fn defines_target(p: Seq<char>) -> bool {
    p == "target"@ || p == "system_rustc"@ || p == "cargo_binary"@ || p == "alias"@
        || p == "crate_name"@ || p == "primary_source"@ || p == "sources"@ || p == "license"@
        || p == "kind"@ || p == "attr"@
}

/// The number of line breaks in `s`.
pub open spec fn newline_count(s: Seq<char>) -> nat
    decreases s.len(),
{
    if s.len() == 0 {
        0
    } else {
        newline_count(s.drop_last()) + if s.last() == '\n' { 1nat } else { 0nat }
    }
}

/// The line (counted from 1) on which position `pos` of `input` lies.
pub open spec fn line_of(input: Seq<char>, pos: int) -> nat {
    newline_count(input.take(pos)) + 1
}

/// The first position at or after `i` at which `pattern` occurs in `input`, if any.
pub open spec fn position_from(input: Seq<char>, pattern: Seq<char>, i: int) -> Option<int>
    decreases input.len() + 1 - i,
{
    if i < 0 || i + pattern.len() > input.len() {
        None
    } else if occurs_at(input, pattern, i) {
        Some(i)
    } else {
        position_from(input, pattern, i + 1)
    }
}

/// The first position of `pattern` in `input`, if any.
pub open spec fn position_of(input: Seq<char>, pattern: Seq<char>) -> Option<int> {
    position_from(input, pattern, 0)
}

/// Where `pattern` first occurs in `input`, as a location in `file`.
pub open spec fn located(input: Seq<char>, file: Seq<char>, pattern: Seq<char>) -> Option<(Seq<char>, nat)> {
    match position_of(input, pattern) {
        Some(p) => Some((file, line_of(input, p))),
        None => None,
    }
}

/// The text that a fact defining `target` is searched for.
pub open spec fn fact_pattern(pred: Seq<char>, target: Seq<char>, ns: Seq<char>) -> Seq<char> {
    let orig = if ns != "//"@ && has_prefix(target, ns) { target.skip(ns.len() as int) } else { target };
    pred + "(\""@ + orig + "\""@
}

pub open spec fn fact_location_step(
    m: Map<Seq<char>, (Seq<char>, nat)>,
    f: SpecFact,
    input: Seq<char>,
    file: Seq<char>,
    ns: Seq<char>,
) -> Map<Seq<char>, (Seq<char>, nat)> {
    if defines_target(f.predicate) && f.args.len() > 0 {
        match f.args[0] {
            SpecValue::Str(target) => {
                if m.contains_key(target) {
                    m
                } else {
                    match located(input, file, fact_pattern(f.predicate, target, ns)) {
                        Some(l) => m.insert(target, l),
                        None => m,
                    }
                }
            },
            _ => m,
        }
    } else {
        m
    }
}

/// The locations of the targets that the facts define; the first definition of a target counts.
pub open spec fn fact_locations(
    fs: Seq<SpecFact>,
    input: Seq<char>,
    file: Seq<char>,
    ns: Seq<char>,
) -> Map<Seq<char>, (Seq<char>, nat)>
    decreases fs.len(),
{
    if fs.len() == 0 {
        Map::empty()
    } else {
        fact_location_step(fact_locations(fs.drop_last(), input, file, ns), fs.last(), input, file, ns)
    }
}

/// `m` with the location of each rule's head added; a later rule of the same name counts.
pub open spec fn rule_locations(
    rs: Seq<SpecRule>,
    input: Seq<char>,
    file: Seq<char>,
    m: Map<Seq<char>, (Seq<char>, nat)>,
) -> Map<Seq<char>, (Seq<char>, nat)>
    decreases rs.len(),
{
    if rs.len() == 0 {
        m
    } else {
        let prev = rule_locations(rs.drop_last(), input, file, m);
        let name = rs.last().head.name;
        match located(input, file, name + "("@) {
            Some(l) => prev.insert(name, l),
            None => prev,
        }
    }
}

proof fn lemma_slash_pairs_step(s: Seq<char>, i: int)
    requires
        0 <= i < s.len(),
    ensures
        i + 1 < s.len() && s[i] == '/' && s[i + 1] == '/' ==> slash_pairs(s.skip(i)) == 1 + slash_pairs(s.skip(i + 2)),
        !(i + 1 < s.len() && s[i] == '/' && s[i + 1] == '/') ==> slash_pairs(s.skip(i)) == slash_pairs(s.skip(i + 1)),
{
    let t = s.skip(i);
    if i + 2 <= s.len() {
        assert(t.skip(2) =~= s.skip(i + 2));
    }
    assert(t.skip(1) =~= s.skip(i + 1));
}

fn slash_pair_count(s: &[char]) -> (r: usize)
    ensures
        r == slash_pairs(s@),
{
    let mut i: usize = 0;
    let mut n: usize = 0;
    assert(s@.skip(0) =~= s@);
    while i < s.len()
        invariant
            i <= s@.len(),
            n <= i,
            slash_pairs(s@) == n + slash_pairs(s@.skip(i as int)),
        decreases s@.len() - i,
    {
        proof { lemma_slash_pairs_step(s@, i as int); }
        if i + 1 < s.len() && s[i] == '/' && s[i + 1] == '/' {
            n = n + 1;
            i = i + 2;
        } else {
            i = i + 1;
        }
    }
    assert(s@.skip(i as int).len() == 0);
    n
}

/// Whether `s` is a target label: it starts with `//` and holds a `:`.
pub fn is_target_label(s: &str) -> (r: bool)
    ensures
        r == is_label_text(s@),
{
    str_starts_with_lit(s, "//") && crate::text::str_contains(s, ":")
}

fn str_starts_with_lit(s: &str, p: &str) -> (r: bool)
    ensures
        r == has_prefix(s@, p@),
{
    crate::text::str_starts_with(s, p)
}

/// Qualifies a label written in a package by the package's namespace `ns`.
pub fn rewrite_target_label(label: &str, ns: &str) -> (r: String)
    ensures
        r@ == rewritten_label(label@, ns@),
{
    proof { reveal_strlit("//:"); reveal_strlit("//"); reveal_strlit(":"); reveal_strlit("/"); }
    let cs = str_chars(label);
    if slash_pair_count(cs.as_slice()) > 1 {
        return str_to_string(label);
    }
    if str_starts_with_lit(label, "//:") {
        let mut r = str_to_string(ns);
        push_all(&mut r, ":");
        let rest = string_from_range(cs.as_slice(), 3, cs.len());
        push_string(&mut r, &rest);
        assert(cs@.subrange(3, cs@.len() as int) =~= label@.skip(3));
        return r;
    }
    let ns_cs = str_chars(ns);
    let path = if str_starts_with_lit(ns, "//") {
        string_from_range(ns_cs.as_slice(), 2, ns_cs.len())
    } else {
        str_to_string(ns)
    };
    assert(has_prefix(ns@, "//"@) ==> ns_cs@.subrange(2, ns_cs@.len() as int) =~= ns@.skip(2));
    if crate::text::str_contains(path.as_str(), "/") {
        let mut r = str_to_string(ns);
        push_all(&mut r, label);
        r
    } else if string_chars(&path).len() > 0 && str_starts_with_lit(label, "//") {
        let mut r = str_to_string(ns);
        push_all(&mut r, "/");
        let rest = string_from_range(cs.as_slice(), 2, cs.len());
        push_string(&mut r, &rest);
        assert(cs@.subrange(2, cs@.len() as int) =~= label@.skip(2));
        r
    } else {
        str_to_string(label)
    }
}

fn rewrite_value(v: &Value, ns: &str) -> (r: Value)
    ensures
        r@ == rewritten_value(v@, ns@),
{
    match v {
        Value::String(s) => {
            if is_target_label(s.as_str()) {
                Value::String(rewrite_target_label(s.as_str(), ns))
            } else {
                Value::String(string_clone(s))
            }
        },
        other => copy_value(other),
    }
}

/// The fact with each target label among its arguments qualified by `ns`.
pub fn rewrite_fact_labels(fact: Fact, ns: &str) -> (r: Fact)
    ensures
        r@ == rewritten_fact(fact@, ns@),
{
    rewrite_fact_ref(&fact, ns)
}

fn rewrite_fact_ref(fact: &Fact, ns: &str) -> (r: Fact)
    ensures
        r@ == rewritten_fact(fact@, ns@),
{
    let ghost old_args = fact.args@;
    let mut out: Vec<Value> = Vec::new();
    let mut i: usize = 0;
    while i < fact.args.len()
        invariant
            i <= old_args.len(),
            old_args == fact.args@,
            values_view(out@) == values_view(old_args.take(i as int)).map_values(|v: SpecValue| rewritten_value(v, ns@)),
        decreases old_args.len() - i,
    {
        let nv = rewrite_value(&fact.args[i], ns);
        let ghost prev = out@;
        out.push(nv);
        i = i + 1;
        assert(values_view(old_args.take(i as int)) =~= values_view(old_args.take(i - 1)).push(old_args[i - 1]@));
        assert(values_view(out@) =~= values_view(prev).push(nv@));
        assert(values_view(out@) =~= values_view(old_args.take(i as int)).map_values(|v: SpecValue| rewritten_value(v, ns@)));
    }
    assert(old_args.take(i as int) =~= old_args);
    let r = Fact { predicate: string_clone(&fact.predicate), args: out };
    assert(r@.args =~= fact@.args.map_values(|v: SpecValue| rewritten_value(v, ns@)));
    r
}

fn is_defining_predicate(p: &str) -> (r: bool)
    ensures
        r == defines_target(p@),
{
    str_eq(p, "target") || str_eq(p, "system_rustc") || str_eq(p, "cargo_binary") || str_eq(p, "alias")
        || str_eq(p, "crate_name") || str_eq(p, "primary_source") || str_eq(p, "sources")
        || str_eq(p, "license") || str_eq(p, "kind") || str_eq(p, "attr")
}

fn line_at(cs: &[char], pos: usize) -> (r: usize)
    requires
        pos < cs@.len(),
    ensures
        r == line_of(cs@, pos as int),
{
    let len = cs.len();
    let mut i: usize = 0;
    let mut n: usize = 0;
    assert(cs@.take(0) =~= Seq::<char>::empty());
    while i < pos
        invariant
            i <= pos < cs@.len(),
            n <= i,
            n == newline_count(cs@.take(i as int)),
        decreases pos - i,
    {
        assert(cs@.take(i + 1).drop_last() =~= cs@.take(i as int));
        if cs[i] == '\n' {
            n = n + 1;
        }
        i = i + 1;
    }
    assert(n < len);
    n + 1
}

pub fn first_position(cs: &[char], pattern: &[char]) -> (r: Option<usize>)
    ensures
        r is None <==> position_of(cs@, pattern@) is None,
        r matches Some(i) ==> position_of(cs@, pattern@) == Some(i as int) && i + pattern@.len() <= cs@.len(),
{
    let mut i: usize = 0;
    let n = cs.len();
    let m = pattern.len();
    if m > n {
        return None;
    }
    let last = n - m;
    loop
        invariant
            n == cs@.len(),
            m == pattern@.len(),
            m <= n,
            last == n - m,
            i <= last,
            position_of(cs@, pattern@) == position_from(cs@, pattern@, i as int),
        decreases last - i,
    {
        if crate::text::matches_at(cs, pattern, i) {
            return Some(i);
        }
        if i == last {
            assert(position_from(cs@, pattern@, i + 1) is None);
            return None;
        }
        i = i + 1;
    }
}

fn locate(cs: &[char], file: &str, pattern: &[char]) -> (r: Option<SourceLocation>)
    requires
        pattern@.len() > 0,
    ensures
        match (r, located(cs@, file@, pattern@)) {
            (Some(l), Some(sl)) => l@ == sl,
            (None, None) => true,
            _ => false,
        },
{
    let found = first_position(cs, pattern);
    match found {
        Some(pos) => {
            let line = line_at(cs, pos);
            let fname = str_to_string(file);
            let l = SourceLocation { file: fname, line };
            assert(l@ == (file@, line_of(cs@, pos as int)));
            Some(l)
        },
        None => None,
    }
}

fn record_fact_location(locs: &mut Locations, f: &Fact, cs: &[char], filename: &str, namespace: &str)
    ensures
        final(locs)@ == fact_location_step(old(locs)@, f@, cs@, filename@, namespace@),
{
    if is_defining_predicate(f.predicate.as_str()) && f.args.len() > 0 {
        assert(f@.args[0] == f.args@[0]@);
        match &f.args[0] {
            Value::String(target) => {
                if !locs.contains_key(target.as_str()) {
                    let pat = fact_search_pattern(&f.predicate, target, namespace);
                    match locate(cs, filename, pat.as_slice()) {
                        Some(l) => {
                            locs.insert(string_clone(target), l);
                        },
                        None => {},
                    }
                }
            },
            _ => {},
        }
    }
}

fn fact_search_pattern(pred: &String, target: &String, ns: &str) -> (r: Vec<char>)
    ensures
        r@ == fact_pattern(pred@, target@, ns@),
        r@.len() > 0,
{
    let mut s = String::new();
    push_string(&mut s, pred);
    push_all(&mut s, "(\"");
    let tcs = string_chars(target);
    let ncs = str_chars(ns);
    if !str_eq(ns, "//") && starts_with_seq(tcs.as_slice(), ncs.as_slice()) {
        let rest = string_from_range(tcs.as_slice(), ncs.len(), tcs.len());
        assert(tcs@.subrange(ncs@.len() as int, tcs@.len() as int) =~= target@.skip(ns@.len() as int));
        push_string(&mut s, &rest);
    } else {
        push_string(&mut s, target);
    }
    push_all(&mut s, "\"");
    proof { reveal_strlit("\""); reveal_strlit("(\""); }
    let r = string_chars(&s);
    r
}

/// Parses a program read from `filename`, with the labels of its facts in the root namespace.
pub fn parse_program_with_file(input: &str, filename: &str) -> (r: Result<(Vec<Fact>, Vec<Rule>, Locations), String>)
    ensures
        match (r, program_spec(input@)) {
            (Ok((fs, rs, locs)), Ok((sfs, srs))) => {
                &&& facts_view(fs@) == sfs
                &&& rules_view(rs@) == srs
                &&& locs@ == rule_locations(srs, input@, filename@, fact_locations(sfs, input@, filename@, "//"@))
            },
            (Err(m), Err(sm)) => m@ == sm,
            _ => false,
        },
{
    let r = parse_program_with_namespace(input, filename, "//");
    proof { reveal_strlit("//"); }
    r
}

/// Parses a program read from `filename` in the package namespace `namespace`: labels of the
/// facts are qualified by the namespace, and the lines defining targets and rules are recorded.
pub fn parse_program_with_namespace(input: &str, filename: &str, namespace: &str) -> (r: Result<(Vec<Fact>, Vec<Rule>, Locations), String>)
    ensures
        match (r, program_spec(input@)) {
            (Ok((fs, rs, locs)), Ok((sfs, srs))) => {
                let nfs = facts_in_namespace(sfs, namespace@);
                &&& facts_view(fs@) == nfs
                &&& rules_view(rs@) == srs
                &&& locs@ == rule_locations(srs, input@, filename@, fact_locations(nfs, input@, filename@, namespace@))
            },
            (Err(m), Err(sm)) => m@ == sm,
            _ => false,
        },
{
    let (facts, rules) = match parse_program(input) {
        Ok(x) => x,
        Err(e) => {
            return Err(e);
        },
    };
    let ghost sfs = facts_view(facts@);
    let root = str_eq(namespace, "//");
    let facts = if root {
        facts
    } else {
        let mut out: Vec<Fact> = Vec::new();
        let mut i: usize = 0;
        while i < facts.len()
            invariant
                i <= sfs.len(),
                sfs == facts_view(facts@),
                facts_view(out@) == sfs.take(i as int).map_values(|f: SpecFact| rewritten_fact(f, namespace@)),
            decreases sfs.len() - i,
        {
            let nf = rewrite_fact_ref(&facts[i], namespace);
            let ghost prev = out@;
            out.push(nf);
            i = i + 1;
            assert(sfs.take(i as int) =~= sfs.take(i - 1).push(sfs[i - 1]));
            assert(facts_view(out@) =~= facts_view(prev).push(nf@));
            assert(facts_view(out@) =~= sfs.take(i as int).map_values(|f: SpecFact| rewritten_fact(f, namespace@)));
        }
        assert(sfs.take(i as int) =~= sfs);
        out
    };
    let ghost nfs = facts_view(facts@);
    assert(nfs == facts_in_namespace(sfs, namespace@));
    let cs = str_chars(input);
    let mut locs = Locations::new();
    let mut i: usize = 0;
    assert(nfs.take(0) =~= Seq::<SpecFact>::empty());
    while i < facts.len()
        invariant
            i <= facts@.len(),
            nfs == facts_view(facts@),
            cs@ == input@,
            locs@ == fact_locations(nfs.take(i as int), input@, filename@, namespace@),
        decreases facts@.len() - i,
    {
        let f = &facts[i];
        assert(nfs.take(i + 1).drop_last() =~= nfs.take(i as int));
        assert(nfs.take(i + 1).last() == f@);
        record_fact_location(&mut locs, f, cs.as_slice(), filename, namespace);
        i = i + 1;
    }
    assert(nfs.take(i as int) =~= nfs);
    let ghost srs = rules_view(rules@);
    let ghost base = locs@;
    let mut j: usize = 0;
    assert(srs.take(0) =~= Seq::<SpecRule>::empty());
    while j < rules.len()
        invariant
            j <= rules@.len(),
            srs == rules_view(rules@),
            cs@ == input@,
            locs@ == rule_locations(srs.take(j as int), input@, filename@, base),
        decreases rules@.len() - j,
    {
        let name = &rules[j].head.name;
        assert(srs.take(j + 1).drop_last() =~= srs.take(j as int));
        assert(srs.take(j + 1).last().head.name == name@);
        let mut p = String::new();
        push_string(&mut p, name);
        push_all(&mut p, "(");
        proof { reveal_strlit("("); }
        let pat = string_chars(&p);
        match locate(cs.as_slice(), filename, pat.as_slice()) {
            Some(l) => {
                locs.insert(string_clone(name), l);
            },
            None => {},
        }
        j = j + 1;
    }
    assert(srs.take(j as int) =~= srs);
    Ok((facts, rules, locs))
}

fn string_clone(s: &String) -> (r: String)
    ensures
        r@ == s@,
{
    crate::datalog::types::copy_string(s)
}

proof fn lemma_fact_locations_source(fs: Seq<SpecFact>, input: Seq<char>, file: Seq<char>, ns: Seq<char>, k: Seq<char>)
    requires
        fact_locations(fs, input, file, ns).contains_key(k),
    ensures
        fact_locations(fs, input, file, ns)[k].0 == file,
        exists|j: int| 0 <= j < fs.len() && defines_target(#[trigger] fs[j].predicate) && fs[j].args.len() > 0
            && fs[j].args[0] == SpecValue::Str(k),
    decreases fs.len(),
{
    let prev = fact_locations(fs.drop_last(), input, file, ns);
    let f = fs.last();
    if prev.contains_key(k) {
        lemma_fact_locations_source(fs.drop_last(), input, file, ns, k);
        let j = choose|j: int| 0 <= j < fs.drop_last().len() && defines_target(#[trigger] fs.drop_last()[j].predicate)
            && fs.drop_last()[j].args.len() > 0 && fs.drop_last()[j].args[0] == SpecValue::Str(k);
        assert(fs[j] == fs.drop_last()[j]);
    } else {
        assert(fs[fs.len() - 1] == f);
    }
}

proof fn lemma_rule_locations_source(rs: Seq<SpecRule>, input: Seq<char>, file: Seq<char>, m: Map<Seq<char>, (Seq<char>, nat)>, k: Seq<char>)
    requires
        rule_locations(rs, input, file, m).contains_key(k),
    ensures
        (rule_locations(rs, input, file, m)[k].0 == file && exists|i: int| 0 <= i < rs.len() && (#[trigger] rs[i]).head.name == k)
            || (m.contains_key(k) && rule_locations(rs, input, file, m)[k] == m[k]),
    decreases rs.len(),
{
    if rs.len() > 0 {
        let prev = rule_locations(rs.drop_last(), input, file, m);
        let name = rs.last().head.name;
        if name == k && located(input, file, name + "("@) is Some {
            assert(rs[rs.len() - 1].head.name == k);
        } else {
            lemma_rule_locations_source(rs.drop_last(), input, file, m, k);
            if exists|i: int| 0 <= i < rs.drop_last().len() && (#[trigger] rs.drop_last()[i]).head.name == k {
                let i = choose|i: int| 0 <= i < rs.drop_last().len() && (#[trigger] rs.drop_last()[i]).head.name == k;
                assert(rs[i] == rs.drop_last()[i]);
            }
        }
    }
}

/// Every location that parsing a program from `file` records names that file, and is the
/// location of a rule's head (under the rule's name) or of a fact that defines a target (under
/// the target's label, its first argument).
pub proof fn law_locations_name_the_file(fs: Seq<SpecFact>, rs: Seq<SpecRule>, input: Seq<char>, file: Seq<char>, ns: Seq<char>, k: Seq<char>)
    requires
        rule_locations(rs, input, file, fact_locations(fs, input, file, ns)).contains_key(k),
    ensures
        rule_locations(rs, input, file, fact_locations(fs, input, file, ns))[k].0 == file,
        (exists|i: int| 0 <= i < rs.len() && (#[trigger] rs[i]).head.name == k)
            || (exists|j: int| 0 <= j < fs.len() && defines_target(#[trigger] fs[j].predicate) && fs[j].args.len() > 0
                && fs[j].args[0] == SpecValue::Str(k)),
{
    let m = fact_locations(fs, input, file, ns);
    lemma_rule_locations_source(rs, input, file, m, k);
    if m.contains_key(k) {
        lemma_fact_locations_source(fs, input, file, ns, k);
    }
}

} // verus!
