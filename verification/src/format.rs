use vstd::prelude::*;
use crate::text::{join, join_strings, unicode_lowercase, unicode_alphanumeric, unicode_whitespace, char_is_lowercase, char_is_alphanumeric, char_is_whitespace, has_prefix, has_suffix, contains_seq, str_chars, string_chars, str_to_string, push_all, push_string, i64_to_string, int_text, string_from_range};
use crate::datalog::types::{Value, SpecValue, Fact, SpecFact, Term, SpecTerm, Predicate, SpecPredicate, Rule, SpecRule, facts_view, rules_view};

verus! {

/// One piece of a formatted file: a comment line, or a fact or rule by its index.
pub enum Item {
    Comment(String),
    FactIndex(usize),
    RuleIndex(usize),
}

pub enum SpecItem {
    Comment(Seq<char>),
    FactIndex(nat),
    RuleIndex(nat),
}

impl View for Item {
    type V = SpecItem;

    open spec fn view(&self) -> SpecItem {
        match self {
            Item::Comment(c) => SpecItem::Comment(c@),
            Item::FactIndex(i) => SpecItem::FactIndex(*i as nat),
            Item::RuleIndex(i) => SpecItem::RuleIndex(*i as nat),
        }
    }
}

pub open spec fn items_view(items: Seq<Item>) -> Seq<SpecItem> {
    items.map_values(|i: Item| i@)
}


/// Whether a string can be written without quotes: it starts with a lowercase letter or `_`
/// and holds only letters, digits and `_`.
pub open spec fn atom_text(s: Seq<char>) -> bool {
    s.len() > 0 && (unicode_lowercase(s[0]) || s[0] == '_')
        && forall|i: int| 0 <= i < s.len() ==> (unicode_alphanumeric(s[i]) || s[i] == '_')
}

/// The text with `\\` before each `"` and `\\`, as string literals write them.
pub open spec fn escaped(s: Seq<char>) -> Seq<char>
    decreases s.len(),
{
    if s.len() == 0 {
        Seq::empty()
    } else {
        escaped(s.drop_last()) + if s.last() == '"' || s.last() == '\\' { seq!['\\', s.last()] } else { seq![s.last()] }
    }
}

pub open spec fn quoted(s: Seq<char>) -> Seq<char> {
    "\""@ + escaped(s) + "\""@
}

/// How a value is written.
pub open spec fn value_text(v: SpecValue) -> Seq<char> {
    match v {
        SpecValue::Str(s) => if atom_text(s) { s } else { quoted(s) },
        SpecValue::Int(i) => int_text(i as int),
        SpecValue::Bool(b) => if b { "true"@ } else { "false"@ },
        SpecValue::Label(p, t) => quoted(p + ":"@ + t),
        SpecValue::Path(p) => quoted(p),
    }
}

/// How a term is written.
pub open spec fn term_text(t: SpecTerm) -> Seq<char> {
    match t {
        SpecTerm::Var(v) => if has_prefix(v, "_anon_"@) { "_"@ } else { v },
        SpecTerm::Const(c) => value_text(c),
    }
}

pub open spec fn terms_text(ts: Seq<SpecTerm>) -> Seq<char> {
    join(ts.map_values(|t: SpecTerm| term_text(t)), ", "@)
}

/// How a fact is written: `name(arg, ...).`
pub open spec fn fact_text(f: SpecFact) -> Seq<char> {
    f.predicate + "("@ + join(f.args.map_values(|v: SpecValue| value_text(v)), ", "@) + ")."@
}

/// How a predicate of a rule is written; `=` and `!=` between their operands, `not:` as
/// `not(...)`, and each wildcard as `_`.
pub open spec fn predicate_text(p: SpecPredicate) -> Seq<char> {
    if p.name == "!="@ && p.args.len() == 2 {
        term_text(p.args[0]) + " != "@ + term_text(p.args[1])
    } else if p.name == "="@ && p.args.len() == 2 {
        term_text(p.args[0]) + " = "@ + term_text(p.args[1])
    } else if has_prefix(p.name, "not:"@) {
        "not("@ + p.name.skip(4) + "("@ + terms_text(p.args) + "))"@
    } else {
        p.name + "("@ + terms_text(p.args) + ")"@
    }
}

/// The body lines of a rule: each on a line of its own, indented, with `,` after each
/// predicate but the last and `.` after the last.
pub open spec fn body_text(body: Seq<SpecPredicate>, n: int) -> Seq<char>
    decreases n,
{
    if n <= 0 {
        Seq::empty()
    } else {
        body_text(body, n - 1) + "\n    "@ + predicate_text(body[n - 1]) + if n == body.len() { "."@ } else { ","@ }
    }
}

/// How a rule is written: the head and ` :-`, then the body lines.
pub open spec fn rule_text(r: SpecRule) -> Seq<char> {
    predicate_text(r.head) + " :-"@ + body_text(r.body, r.body.len() as int)
}

/// The text of the items `items[..n]`, and whether the last item written was a rule.
pub open spec fn items_text(
    facts: Seq<SpecFact>,
    rules: Seq<SpecRule>,
    items: Seq<SpecItem>,
    n: int,
) -> (Seq<char>, bool)
    decreases n,
{
    if n <= 0 {
        (Seq::empty(), false)
    } else {
        let (out, last) = items_text(facts, rules, items, n - 1);
        match items[n - 1] {
            SpecItem::Comment(c) => (out + c + "\n"@, false),
            SpecItem::FactIndex(i) => if i < facts.len() {
                (out + fact_text(facts[i as int]) + "\n"@, false)
            } else {
                (out, last)
            },
            SpecItem::RuleIndex(i) => {
                let out2 = if last { out + "\n"@ } else { out };
                if i < rules.len() {
                    (out2 + rule_text(rules[i as int]) + "\n"@, true)
                } else {
                    (out2, last)
                }
            },
        }
    }
}

/// The items of a program without comments: its facts, then its rules.
pub open spec fn program_items(nf: nat, nr: nat) -> Seq<SpecItem> {
    Seq::new(nf, |i: int| SpecItem::FactIndex(i as nat)) + Seq::new(nr, |i: int| SpecItem::RuleIndex(i as nat))
}

/// The lines of a text: split at `\n`, a `\r` before it dropped, no empty line after a final `\n`.
pub open spec fn text_lines(s: Seq<char>) -> Seq<Seq<char>>
    decreases s.len(),
{
    if s.len() == 0 {
        Seq::empty()
    } else {
        let k = line_break(s);
        let line = s.take(k);
        let line = if line.len() > 0 && line.last() == '\r' { line.drop_last() } else { line };
        if k >= s.len() {
            seq![line]
        } else {
            proof { lemma_line_break_bounds(s); }
            seq![line] + text_lines(s.skip(k + 1))
        }
    }
}

pub proof fn lemma_line_break_bounds(s: Seq<char>)
    ensures
        0 <= line_break(s) <= s.len(),
        line_break(s) < s.len() ==> s[line_break(s)] == '\n',
        forall|j: int| 0 <= j < line_break(s) ==> s[j] != '\n',
    decreases s.len(),
{
    if s.len() > 0 && s[0] != '\n' {
        lemma_line_break_bounds(s.skip(1));
        assert forall|j: int| 0 <= j < line_break(s) implies s[j] != '\n' by {
            if j > 0 {
                assert(s[j] == s.skip(1)[j - 1]);
            }
        }
    }
}

/// The position of the first `\n` in `s`, or the length of `s`.
pub open spec fn line_break(s: Seq<char>) -> int
    decreases s.len(),
{
    if s.len() == 0 {
        0
    } else if s[0] == '\n' {
        0
    } else {
        1 + line_break(s.skip(1))
    }
}

/// The number of white-space characters at the start of `s`.
pub open spec fn lead_ws(s: Seq<char>) -> int
    decreases s.len(),
{
    if s.len() > 0 && unicode_whitespace(s[0]) {
        1 + lead_ws(s.skip(1))
    } else {
        0
    }
}

/// The number of white-space characters at the end of `s`.
pub open spec fn trail_ws(s: Seq<char>) -> int
    decreases s.len(),
{
    if s.len() > 0 && unicode_whitespace(s.last()) {
        1 + trail_ws(s.drop_last())
    } else {
        0
    }
}

/// `s` without white space at either end.
pub open spec fn trimmed(s: Seq<char>) -> Seq<char> {
    let a = lead_ws(s);
    let t = s.skip(a);
    t.take(t.len() - trail_ws(t))
}

/// The items that a file's lines give: comments where they stand, a fact or rule index for
/// each line that looks like one, then the indices that no line claimed.
pub open spec fn line_items(
    lines: Seq<Seq<char>>,
    nf: nat,
    nr: nat,
    n: int,
) -> (Seq<SpecItem>, nat, nat)
    decreases n,
{
    if n <= 0 {
        (Seq::empty(), 0, 0)
    } else {
        let (items, fi, ri) = line_items(lines, nf, nr, n - 1);
        let t = trimmed(lines[n - 1]);
        if t.len() == 0 {
            (items, fi, ri)
        } else if t[0] == '#' {
            (items.push(SpecItem::Comment(t)), fi, ri)
        } else if contains_seq(t, ":-"@) {
            if ri < nr {
                (items.push(SpecItem::RuleIndex(ri)), fi, ri + 1)
            } else {
                (items, fi, ri)
            }
        } else if has_suffix(t, "."@) && fi < nf {
            (items.push(SpecItem::FactIndex(fi)), fi + 1, ri)
        } else {
            (items, fi, ri)
        }
    }
}

pub open spec fn file_items(content: Seq<char>, nf: nat, nr: nat) -> Seq<SpecItem> {
    let lines = text_lines(content);
    let (items, fi, ri) = line_items(lines, nf, nr, lines.len() as int);
    items + Seq::new((nf - fi) as nat, |i: int| SpecItem::FactIndex((fi + i) as nat))
        + Seq::new((nr - ri) as nat, |i: int| SpecItem::RuleIndex((ri + i) as nat))
}

/// Writes the texts joined by `", "`.
fn join_texts(parts: &Vec<String>) -> (r: String)
    ensures
        r@ == join(parts@.map_values(|p: String| p@), ", "@),
{
    join_strings(parts, ", ")
}

/// Whether a string can be written without quotes.
pub fn is_atom(s: &str) -> (r: bool)
    ensures
        r == atom_text(s@),
{
    let cs = str_chars(s);
    if cs.len() == 0 {
        return false;
    }
    let first = cs[0];
    if !char_is_lowercase(first) && first != '_' {
        return false;
    }
    let mut i: usize = 0;
    while i < cs.len()
        invariant
            cs@ == s@,
            i <= cs@.len(),
            forall|j: int| 0 <= j < i ==> (unicode_alphanumeric(cs@[j]) || cs@[j] == '_'),
        decreases cs@.len() - i,
    {
        let c = cs[i];
        if !char_is_alphanumeric(c) && c != '_' {
            return false;
        }
        i = i + 1;
    }
    true
}

fn quote(s: &String) -> (r: String)
    ensures
        r@ == quoted(s@),
{
    let cs = string_chars(s);
    let mut r = str_to_string("\"");
    proof { reveal_strlit("\""); }
    let ghost start = r@;
    let mut i: usize = 0;
    assert(cs@.take(0) =~= Seq::<char>::empty());
    while i < cs.len()
        invariant
            i <= cs@.len(),
            cs@ == s@,
            start == "\""@,
            r@ == start + escaped(cs@.take(i as int)),
        decreases cs@.len() - i,
    {
        let c = cs[i];
        assert(cs@.take(i + 1).drop_last() =~= cs@.take(i as int));
        assert(cs@.take(i + 1).last() == c);
        if c == '"' || c == '\\' {
            r.push('\\');
        }
        r.push(c);
        i = i + 1;
        assert(r@ =~= start + escaped(cs@.take(i as int)));
    }
    assert(cs@.take(i as int) =~= s@);
    push_all(&mut r, "\"");
    r
}

/// How a value is written.
pub fn format_value(v: &Value) -> (r: String)
    ensures
        r@ == value_text(v@),
{
    match v {
        Value::String(s) => {
            if is_atom(s.as_str()) {
                crate::datalog::types::copy_string(s)
            } else {
                quote(s)
            }
        },
        Value::Integer(i) => i64_to_string(*i),
        Value::Bool(b) => {
            if *b {
                str_to_string("true")
            } else {
                str_to_string("false")
            }
        },
        Value::Label(l) => {
            let t = l.to_string();
            quote(&t)
        },
        Value::Path(p) => quote(p),
    }
}

/// How a term is written.
pub fn format_term(t: &Term) -> (r: String)
    ensures
        r@ == term_text(t@),
{
    match t {
        Term::Variable(v) => {
            if crate::text::str_starts_with(v.as_str(), "_anon_") {
                str_to_string("_")
            } else {
                crate::datalog::types::copy_string(v)
            }
        },
        Term::Constant(c) => format_value(c),
    }
}

fn format_terms(ts: &Vec<Term>) -> (r: String)
    ensures
        r@ == terms_text(crate::datalog::types::terms_view(ts@)),
{
    let mut parts: Vec<String> = Vec::new();
    let mut i: usize = 0;
    while i < ts.len()
        invariant
            i <= ts@.len(),
            parts@.map_values(|p: String| p@) == crate::datalog::types::terms_view(ts@.take(i as int)).map_values(|t: SpecTerm| term_text(t)),
        decreases ts@.len() - i,
    {
        let p = format_term(&ts[i]);
        let ghost prev = parts@;
        parts.push(p);
        i = i + 1;
        assert(parts@.map_values(|p: String| p@) =~= prev.map_values(|p: String| p@).push(p@));
        assert(crate::datalog::types::terms_view(ts@.take(i as int)).map_values(|t: SpecTerm| term_text(t))
            =~= crate::datalog::types::terms_view(ts@.take(i - 1)).map_values(|t: SpecTerm| term_text(t)).push(term_text(ts@[i - 1]@)));
    }
    assert(ts@.take(i as int) =~= ts@);
    join_texts(&parts)
}

/// How a fact is written: `name(arg, ...).`
pub fn format_fact(f: &Fact) -> (r: String)
    ensures
        r@ == fact_text(f@),
{
    let mut parts: Vec<String> = Vec::new();
    let mut i: usize = 0;
    while i < f.args.len()
        invariant
            i <= f.args@.len(),
            parts@.map_values(|p: String| p@) == crate::datalog::types::values_view(f.args@.take(i as int)).map_values(|v: SpecValue| value_text(v)),
        decreases f.args@.len() - i,
    {
        let p = format_value(&f.args[i]);
        let ghost prev = parts@;
        parts.push(p);
        i = i + 1;
        assert(parts@.map_values(|p: String| p@) =~= prev.map_values(|p: String| p@).push(p@));
        assert(crate::datalog::types::values_view(f.args@.take(i as int)).map_values(|v: SpecValue| value_text(v))
            =~= crate::datalog::types::values_view(f.args@.take(i - 1)).map_values(|v: SpecValue| value_text(v)).push(value_text(f.args@[i - 1]@)));
    }
    assert(f.args@.take(i as int) =~= f.args@);
    let args = join_texts(&parts);
    let mut r = String::new();
    push_string(&mut r, &f.predicate);
    push_all(&mut r, "(");
    push_string(&mut r, &args);
    push_all(&mut r, ").");
    assert(r@ =~= fact_text(f@));
    r
}

/// How a predicate of a rule is written.
pub fn format_predicate(p: &Predicate) -> (r: String)
    ensures
        r@ == predicate_text(p@),
{
    if crate::text::str_eq(p.name.as_str(), "!=") && p.args.len() == 2 {
        let mut r = format_term(&p.args[0]);
        push_all(&mut r, " != ");
        let b = format_term(&p.args[1]);
        push_string(&mut r, &b);
        return r;
    }
    if crate::text::str_eq(p.name.as_str(), "=") && p.args.len() == 2 {
        let mut r = format_term(&p.args[0]);
        push_all(&mut r, " = ");
        let b = format_term(&p.args[1]);
        push_string(&mut r, &b);
        return r;
    }
    let args = format_terms(&p.args);
    if crate::text::str_starts_with(p.name.as_str(), "not:") {
        proof { reveal_strlit("not:"); }
        let cs = string_chars(&p.name);
        let inner = string_from_range(cs.as_slice(), 4, cs.len());
        assert(cs@.subrange(4, cs@.len() as int) =~= p.name@.skip(4));
        let mut r = str_to_string("not(");
        push_string(&mut r, &inner);
        push_all(&mut r, "(");
        push_string(&mut r, &args);
        push_all(&mut r, "))");
        return r;
    }
    let mut r = String::new();
    push_string(&mut r, &p.name);
    push_all(&mut r, "(");
    push_string(&mut r, &args);
    push_all(&mut r, ")");
    assert(r@ =~= predicate_text(p@));
    r
}

/// How a rule is written: the head and ` :-`, then each body predicate on a line of its own.
pub fn format_rule(rule: &Rule) -> (r: String)
    ensures
        r@ == rule_text(rule@),
{
    let ghost body = crate::datalog::types::preds_view(rule.body@);
    let mut r = format_predicate(&rule.head);
    push_all(&mut r, " :-");
    let ghost start = r@;
    let n = rule.body.len();
    let mut i: usize = 0;
    while i < n
        invariant
            n == rule.body@.len(),
            body == crate::datalog::types::preds_view(rule.body@),
            i <= n,
            r@ == start + body_text(body, i as int),
        decreases n - i,
    {
        push_all(&mut r, "\n    ");
        let t = format_predicate(&rule.body[i]);
        push_string(&mut r, &t);
        if i + 1 < n {
            push_all(&mut r, ",");
        } else {
            push_all(&mut r, ".");
        }
        i = i + 1;
    }
    r
}

/// Writes the items in order: comments as they are, facts and rules formatted, with an empty
/// line between two rules that follow each other.
pub fn format_with_items(facts: &Vec<Fact>, rules: &Vec<Rule>, items: &Vec<Item>) -> (r: String)
    ensures
        r@ == items_text(facts_view(facts@), rules_view(rules@), items_view(items@), items@.len() as int).0,
{
    let ghost sf = facts_view(facts@);
    let ghost sr = rules_view(rules@);
    let ghost si = items_view(items@);
    let mut out = String::new();
    let mut last_was_rule = false;
    let mut k: usize = 0;
    while k < items.len()
        invariant
            k <= items@.len(),
            sf == facts_view(facts@),
            sr == rules_view(rules@),
            si == items_view(items@),
            (out@, last_was_rule) == items_text(sf, sr, si, k as int),
        decreases items@.len() - k,
    {
        match &items[k] {
            Item::Comment(c) => {
                push_string(&mut out, c);
                push_all(&mut out, "\n");
                last_was_rule = false;
            },
            Item::FactIndex(idx) => {
                if *idx < facts.len() {
                    let t = format_fact(&facts[*idx]);
                    push_string(&mut out, &t);
                    push_all(&mut out, "\n");
                    last_was_rule = false;
                }
            },
            Item::RuleIndex(idx) => {
                if last_was_rule {
                    push_all(&mut out, "\n");
                }
                if *idx < rules.len() {
                    let t = format_rule(&rules[*idx]);
                    push_string(&mut out, &t);
                    push_all(&mut out, "\n");
                    last_was_rule = true;
                }
            },
        }
        k = k + 1;
    }
    out
}

/// Writes a program: its facts, then its rules.
pub fn format_program(facts: &Vec<Fact>, rules: &Vec<Rule>) -> (r: String)
    ensures
        r@ == items_text(facts_view(facts@), rules_view(rules@), program_items(facts@.len(), rules@.len()),
            (facts@.len() + rules@.len()) as int).0,
{
    let mut items: Vec<Item> = Vec::new();
    let nf = facts.len();
    let nr = rules.len();
    let mut i: usize = 0;
    while i < nf
        invariant
            i <= nf,
            items_view(items@) == Seq::new(i as nat, |j: int| SpecItem::FactIndex(j as nat)),
        decreases nf - i,
    {
        let ghost prev = items@;
        items.push(Item::FactIndex(i));
        assert(items_view(items@) =~= items_view(prev).push(SpecItem::FactIndex(i as nat)));
        i = i + 1;
        assert(items_view(items@) =~= Seq::new(i as nat, |j: int| SpecItem::FactIndex(j as nat)));
    }
    let mut j: usize = 0;
    while j < nr
        invariant
            j <= nr,
            items_view(items@) == Seq::new(nf as nat, |k: int| SpecItem::FactIndex(k as nat))
                + Seq::new(j as nat, |k: int| SpecItem::RuleIndex(k as nat)),
        decreases nr - j,
    {
        let ghost prev = items@;
        items.push(Item::RuleIndex(j));
        assert(items_view(items@) =~= items_view(prev).push(SpecItem::RuleIndex(j as nat)));
        j = j + 1;
        assert(items_view(items@) =~= Seq::new(nf as nat, |k: int| SpecItem::FactIndex(k as nat))
            + Seq::new(j as nat, |k: int| SpecItem::RuleIndex(k as nat)));
    }
    assert(items_view(items@) =~= program_items(nf as nat, nr as nat));
    format_with_items(facts, rules, &items)
}

proof fn lemma_lead_step(s: Seq<char>, i: int)
    requires
        0 <= i < s.len(),
        unicode_whitespace(s[i]),
    ensures
        lead_ws(s.skip(i)) == 1 + lead_ws(s.skip(i + 1)),
{
    assert(s.skip(i).skip(1) =~= s.skip(i + 1));
}

proof fn lemma_trail_step(s: Seq<char>, j: int)
    requires
        0 < j <= s.len(),
        unicode_whitespace(s[j - 1]),
    ensures
        trail_ws(s.take(j)) == 1 + trail_ws(s.take(j - 1)),
{
    assert(s.take(j).drop_last() =~= s.take(j - 1));
}

/// `cs` without white space at either end.
pub(crate) fn trim_chars(cs: &Vec<char>) -> (r: Vec<char>)
    ensures
        r@ == trimmed(cs@),
{
    let n = cs.len();
    let mut a: usize = 0;
    assert(cs@.skip(0) =~= cs@);
    while a < n && char_is_whitespace(cs[a])
        invariant
            n == cs@.len(),
            a <= n,
            lead_ws(cs@) == a + lead_ws(cs@.skip(a as int)),
        decreases n - a,
    {
        proof { lemma_lead_step(cs@, a as int); }
        a = a + 1;
    }
    let ghost t = cs@.skip(a as int);
    assert(lead_ws(cs@.skip(a as int)) == 0);
    let mut b: usize = n;
    assert(t.take(t.len() as int) =~= t);
    while b > a && char_is_whitespace(cs[b - 1])
        invariant
            n == cs@.len(),
            a <= b <= n,
            t == cs@.skip(a as int),
            trail_ws(t) == (n - b) + trail_ws(t.take(b - a)),
        decreases b,
    {
        assert(t[b - a - 1] == cs@[b - 1]);
        proof { lemma_trail_step(t, b - a); }
        b = b - 1;
    }
    assert(trail_ws(t.take(b - a)) == 0);
    let mut r: Vec<char> = Vec::new();
    let mut k: usize = a;
    while k < b
        invariant
            a <= k <= b <= n,
            n == cs@.len(),
            r@ == cs@.subrange(a as int, k as int),
        decreases b - k,
    {
        r.push(cs[k]);
        k = k + 1;
        assert(r@ =~= cs@.subrange(a as int, k as int));
    }
    assert(r@ =~= t.take(t.len() - trail_ws(t)));
    r
}

/// The items of a file: the comments, and an index for each line that looks like a fact or
/// a rule, in the order of the lines; indices that no line claimed follow at the end.
pub fn extract_items_with_comments(content: &str, fact_count: usize, rule_count: usize) -> (r: Vec<Item>)
    ensures
        items_view(r@) == file_items(content@, fact_count as nat, rule_count as nat),
{
    let cs = str_chars(content);
    let ghost lines = text_lines(content@);
    let n = cs.len();
    let mut items: Vec<Item> = Vec::new();
    let mut fi: usize = 0;
    let mut ri: usize = 0;
    let mut p: usize = 0;
    let ghost mut done: int = 0;
    assert(cs@.skip(0) =~= cs@);
    while p < n
        invariant
            n == cs@.len(),
            cs@ == content@,
            p <= n,
            lines == text_lines(content@),
            0 <= done <= lines.len(),
            lines =~= lines.take(done) + text_lines(cs@.skip(p as int)),
            (items_view(items@), fi as nat, ri as nat) == line_items(lines, fact_count as nat, rule_count as nat, done),
            fi <= fact_count,
            ri <= rule_count,
        decreases n - p,
    {
        let ghost rest = cs@.skip(p as int);
        proof { lemma_line_break_bounds(rest); }
        let mut k: usize = p;
        while k < n && cs[k] != '\n'
            invariant
                p <= k <= n,
                n == cs@.len(),
                rest == cs@.skip(p as int),
                forall|j: int| p <= j < k ==> cs@[j] != '\n',
            decreases n - k,
        {
            k = k + 1;
        }
        proof { lemma_line_break_at(rest, (k - p) as int); }
        let mut line: Vec<char> = Vec::new();
        let mut e: usize = k;
        if e > p && cs[e - 1] == '\r' {
            e = e - 1;
        }
        let mut q: usize = p;
        while q < e
            invariant
                p <= q <= e <= k <= n,
                n == cs@.len(),
                line@ == cs@.subrange(p as int, q as int),
            decreases e - q,
        {
            line.push(cs[q]);
            q = q + 1;
            assert(line@ =~= cs@.subrange(p as int, q as int));
        }
        let ghost first = if rest.take(k - p).len() > 0 && rest.take(k - p).last() == '\r' { rest.take(k - p).drop_last() } else { rest.take(k - p) };
        assert(line@ =~= first);
        let t = trim_chars(&line);
        proof {
            if k >= n {
                assert(text_lines(rest) =~= seq![first]);
            } else {
                assert(rest.skip(k - p + 1) =~= cs@.skip(k + 1));
                assert(text_lines(rest) =~= seq![first] + text_lines(cs@.skip(k + 1)));
            }
            assert(lines[done] == first);
            assert(lines.take(done + 1) =~= lines.take(done).push(first));
        }
        if t.len() == 0 {
        } else if t[0] == '#' {
            let c = crate::text::string_from_chars(t.as_slice());
            items.push(Item::Comment(c));
        } else if crate::text::contains_chars(t.as_slice(), str_chars(":-").as_slice()) {
            if ri < rule_count {
                items.push(Item::RuleIndex(ri));
                ri = ri + 1;
            }
        } else if crate::text::ends_with_seq(t.as_slice(), str_chars(".").as_slice()) && fi < fact_count {
            items.push(Item::FactIndex(fi));
            fi = fi + 1;
        }
        proof { done = done + 1; }
        if k >= n {
            p = n;
            assert(lines =~= lines.take(done));
            assert(text_lines(cs@.skip(p as int)) =~= Seq::<Seq<char>>::empty());
        } else {
            p = k + 1;
        }
    }
    assert(cs@.skip(p as int).len() == 0);
    assert(lines.take(done) =~= lines);
    let ghost fi0 = fi;
    let ghost ri0 = ri;
    let ghost base = items_view(items@);
    while fi < fact_count
        invariant
            fi0 <= fi <= fact_count,
            items_view(items@) == base + Seq::new((fi - fi0) as nat, |i: int| SpecItem::FactIndex((fi0 + i) as nat)),
        decreases fact_count - fi,
    {
        let ghost prev = items@;
        items.push(Item::FactIndex(fi));
        assert(items_view(items@) =~= items_view(prev).push(SpecItem::FactIndex(fi as nat)));
        fi = fi + 1;
        assert(items_view(items@) =~= base + Seq::new((fi - fi0) as nat, |i: int| SpecItem::FactIndex((fi0 + i) as nat)));
    }
    let ghost base2 = items_view(items@);
    while ri < rule_count
        invariant
            ri0 <= ri <= rule_count,
            items_view(items@) == base2 + Seq::new((ri - ri0) as nat, |i: int| SpecItem::RuleIndex((ri0 + i) as nat)),
        decreases rule_count - ri,
    {
        let ghost prev = items@;
        items.push(Item::RuleIndex(ri));
        assert(items_view(items@) =~= items_view(prev).push(SpecItem::RuleIndex(ri as nat)));
        ri = ri + 1;
        assert(items_view(items@) =~= base2 + Seq::new((ri - ri0) as nat, |i: int| SpecItem::RuleIndex((ri0 + i) as nat)));
    }
    items
}

proof fn lemma_line_break_at(s: Seq<char>, k: int)
    requires
        0 <= k <= s.len(),
        forall|j: int| 0 <= j < k ==> s[j] != '\n',
        k < s.len() ==> s[k] == '\n',
    ensures
        line_break(s) == k,
    decreases k,
{
    if k > 0 {
        lemma_line_break_at(s.skip(1), k - 1);
    }
}

/// Formats the text of a program file, keeping its comment lines where they stand.
pub fn format_source(content: &str) -> (r: Result<String, String>)
    ensures
        match (r, crate::datalog::parser::program_spec(content@)) {
            (Ok(out), Ok((sfs, srs))) => {
                let items = file_items(content@, sfs.len(), srs.len());
                out@ == items_text(sfs, srs, items, items.len() as int).0
            },
            (Err(m), Err(sm)) => m@ == sm,
            _ => false,
        },
{
    match crate::datalog::parser::parse_program(content) {
        Ok((facts, rules)) => {
            let items = extract_items_with_comments(content, facts.len(), rules.len());
            Ok(format_with_items(&facts, &rules, &items))
        },
        Err(e) => Err(e),
    }
}

} // verus!
