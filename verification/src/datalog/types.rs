use vstd::prelude::*;
use crate::text::{debug_text, debug_quoted, int_text, i64_to_string, has_prefix, str_chars, str_to_string, string_from_range, push_string, push_all};

verus! {

/// Where a predicate or target was declared.
#[derive(Clone, Hash, PartialEq, Eq, Debug, PartialOrd, Ord)]
pub struct SourceLocation {
    pub file: String,
    pub line: usize,
}

/// A target label `package:target`, such as `//app:cli`.
#[derive(Clone, Hash, PartialEq, Eq, Debug, PartialOrd, Ord)]
pub struct TargetLabel {
    pub package: String,
    pub target: String,
}

/// A value stored in a fact.
#[derive(Clone, Hash, PartialEq, Eq, Debug, PartialOrd, Ord)]
pub enum Value {
    String(String),
    Integer(i64),
    Bool(bool),
    Label(TargetLabel),
    Path(String),
}

/// A ground fact `predicate(args...)`.
#[derive(Clone, Hash, PartialEq, Eq, Debug, PartialOrd, Ord)]
pub struct Fact {
    pub predicate: String,
    pub args: Vec<Value>,
}

/// A term of a rule: a variable or a constant.
#[derive(Clone, Hash, PartialEq, Eq, Debug)]
pub enum Term {
    Variable(String),
    Constant(Value),
}

/// A predicate of a rule, `name(terms...)`.
#[derive(Clone, Hash, PartialEq, Eq, Debug)]
pub struct Predicate {
    pub name: String,
    pub args: Vec<Term>,
}

/// A rule `head :- body1, ..., bodyN.`
#[derive(Clone, Debug)]
pub struct Rule {
    pub head: Predicate,
    pub body: Vec<Predicate>,
}

/// The mathematical model of a value.
pub enum SpecValue {
    Str(Seq<char>),
    Int(i64),
    Bool(bool),
    Label(Seq<char>, Seq<char>),
    Path(Seq<char>),
}

pub struct SpecFact {
    pub predicate: Seq<char>,
    pub args: Seq<SpecValue>,
}

pub enum SpecTerm {
    Var(Seq<char>),
    Const(SpecValue),
}

pub struct SpecPredicate {
    pub name: Seq<char>,
    pub args: Seq<SpecTerm>,
}

pub struct SpecRule {
    pub head: SpecPredicate,
    pub body: Seq<SpecPredicate>,
}

impl View for SourceLocation {
    type V = (Seq<char>, nat);

    open spec fn view(&self) -> (Seq<char>, nat) {
        (self.file@, self.line as nat)
    }
}

impl View for TargetLabel {
    type V = (Seq<char>, Seq<char>);

    open spec fn view(&self) -> (Seq<char>, Seq<char>) {
        (self.package@, self.target@)
    }
}

impl View for Value {
    type V = SpecValue;

    open spec fn view(&self) -> SpecValue {
        match self {
            Value::String(s) => SpecValue::Str(s@),
            Value::Integer(i) => SpecValue::Int(*i),
            Value::Bool(b) => SpecValue::Bool(*b),
            Value::Label(l) => SpecValue::Label(l.package@, l.target@),
            Value::Path(p) => SpecValue::Path(p@),
        }
    }
}

pub open spec fn values_view(vs: Seq<Value>) -> Seq<SpecValue> {
    vs.map_values(|v: Value| v@)
}

impl View for Fact {
    type V = SpecFact;

    open spec fn view(&self) -> SpecFact {
        SpecFact { predicate: self.predicate@, args: values_view(self.args@) }
    }
}

impl View for Term {
    type V = SpecTerm;

    open spec fn view(&self) -> SpecTerm {
        match self {
            Term::Variable(v) => SpecTerm::Var(v@),
            Term::Constant(c) => SpecTerm::Const(c@),
        }
    }
}

pub open spec fn terms_view(ts: Seq<Term>) -> Seq<SpecTerm> {
    ts.map_values(|t: Term| t@)
}

impl View for Predicate {
    type V = SpecPredicate;

    open spec fn view(&self) -> SpecPredicate {
        SpecPredicate { name: self.name@, args: terms_view(self.args@) }
    }
}

pub open spec fn preds_view(ps: Seq<Predicate>) -> Seq<SpecPredicate> {
    ps.map_values(|p: Predicate| p@)
}

impl View for Rule {
    type V = SpecRule;

    open spec fn view(&self) -> SpecRule {
        SpecRule { head: self.head@, body: preds_view(self.body@) }
    }
}

pub open spec fn facts_view(fs: Seq<Fact>) -> Seq<SpecFact> {
    fs.map_values(|f: Fact| f@)
}

pub open spec fn rules_view(rs: Seq<Rule>) -> Seq<SpecRule> {
    rs.map_values(|r: Rule| r@)
}

/// A copy of a string with the same characters.
pub fn copy_string(s: &String) -> (r: String)
    ensures
        r@ == s@,
{
    s.clone()
}

/// A copy of a value.
pub fn copy_value(v: &Value) -> (r: Value)
    ensures
        r@ == v@,
{
    match v {
        Value::String(s) => Value::String(s.clone()),
        Value::Integer(i) => Value::Integer(*i),
        Value::Bool(b) => Value::Bool(*b),
        Value::Label(l) => Value::Label(TargetLabel { package: l.package.clone(), target: l.target.clone() }),
        Value::Path(p) => Value::Path(p.clone()),
    }
}

/// Whether two strings hold the same characters.
pub fn string_eq(a: &String, b: &String) -> (r: bool)
    ensures
        r == (a@ == b@),
{
    *a == *b
}

/// Whether two values are equal.
pub fn value_eq(a: &Value, b: &Value) -> (r: bool)
    ensures
        r == (a@ == b@),
{
    match (a, b) {
        (Value::String(x), Value::String(y)) => string_eq(x, y),
        (Value::Integer(x), Value::Integer(y)) => *x == *y,
        (Value::Bool(x), Value::Bool(y)) => *x == *y,
        (Value::Label(x), Value::Label(y)) => string_eq(&x.package, &y.package) && string_eq(&x.target, &y.target),
        (Value::Path(x), Value::Path(y)) => string_eq(x, y),
        _ => false,
    }
}

impl Fact {
    /// A fact `predicate(args...)`.
    pub fn new(predicate: &str, args: Vec<Value>) -> (r: Self)
        ensures
            r.predicate@ == predicate@,
            r.args@ == args@,
    {
        Fact { predicate: str_to_string(predicate), args }
    }
}

impl Rule {
    /// A rule `head :- body.`
    pub fn new(head: Predicate, body: Vec<Predicate>) -> (r: Self)
        ensures
            r.head == head,
            r.body == body,
    {
        Rule { head, body }
    }
}

/// The number of times `c` occurs in `s`.
pub open spec fn char_count(s: Seq<char>, c: char) -> nat
    decreases s.len(),
{
    if s.len() == 0 {
        0
    } else {
        char_count(s.drop_last(), c) + if s.last() == c { 1nat } else { 0nat }
    }
}

/// The position of the first `c` in `s`, or the length of `s`.
pub open spec fn first_index_of(s: Seq<char>, c: char) -> int
    decreases s.len(),
{
    if s.len() == 0 {
        0
    } else if s[0] == c {
        0
    } else {
        1 + first_index_of(s.skip(1), c)
    }
}

/// What `TargetLabel::parse` gives for `s`: the text before and after its one `:`, where
/// that text before starts with `//`.
pub open spec fn label_parts(s: Seq<char>) -> Option<(Seq<char>, Seq<char>)> {
    let k = first_index_of(s, ':');
    if char_count(s, ':') == 1 && has_prefix(s.take(k), "//"@) {
        Some((s.take(k), s.skip(k + 1)))
    } else {
        None
    }
}

/// Why a text is not a label: it does not hold exactly one `:`, or the part before it does
/// not start with `//`.
pub open spec fn label_error(s: Seq<char>) -> Seq<char> {
    if char_count(s, ':') != 1 {
        "Invalid target label: "@ + s
    } else {
        "Target label must start with //: "@ + s
    }
}

proof fn lemma_first_index_bound(s: Seq<char>, c: char)
    ensures
        0 <= first_index_of(s, c) <= s.len(),
        first_index_of(s, c) < s.len() ==> s[first_index_of(s, c)] == c,
        forall|j: int| 0 <= j < first_index_of(s, c) ==> s[j] != c,
    decreases s.len(),
{
    if s.len() > 0 && s[0] != c {
        lemma_first_index_bound(s.skip(1), c);
        assert forall|j: int| 0 <= j < first_index_of(s, c) implies s[j] != c by {
            if j > 0 {
                assert(s[j] == s.skip(1)[j - 1]);
            }
        }
    }
}

proof fn lemma_char_count_take(s: Seq<char>, c: char, i: int)
    requires
        0 <= i < s.len(),
    ensures
        char_count(s.take(i + 1), c) == char_count(s.take(i), c) + if s[i] == c { 1nat } else { 0nat },
{
    assert(s.take(i + 1).drop_last() =~= s.take(i));
}

impl TargetLabel {
    /// The label `package:target`.
    pub fn new(package: &str, target: &str) -> (r: Self)
        ensures
            r@ == (package@, target@),
    {
        TargetLabel { package: str_to_string(package), target: str_to_string(target) }
    }

    /// Reads a label `//package:target`: the text must hold exactly one `:`, and the
    /// part before it must start with `//`.
    pub fn parse(s: &str) -> (r: Result<Self, String>)
        ensures
            match (r, label_parts(s@)) {
                (Ok(l), Some(parts)) => l@ == parts,
                (Err(m), None) => m@ == label_error(s@),
                _ => false,
            },
    {
        let cs = str_chars(s);
        let mut i: usize = 0;
        let mut colons: usize = 0;
        let mut first: usize = cs.len();
        assert(cs@.take(0) =~= Seq::<char>::empty());
        while i < cs.len()
            invariant
                cs@ == s@,
                i <= cs@.len(),
                colons <= i,
                colons == char_count(cs@.take(i as int), ':'),
                colons == 0 ==> first == cs@.len(),
                colons > 0 ==> first == first_index_of(cs@, ':') && first < i,
                colons == 0 ==> forall|j: int| 0 <= j < i ==> cs@[j] != ':',
            decreases cs@.len() - i,
        {
            proof { lemma_char_count_take(cs@, ':', i as int); }
            if cs[i] == ':' {
                if colons == 0 {
                    proof { lemma_first_index_of_at(cs@, ':', i as int); }
                    first = i;
                }
                colons = colons + 1;
            }
            i = i + 1;
        }
        assert(cs@.take(i as int) =~= cs@);
        proof {
            lemma_first_index_bound(cs@, ':');
            if colons == 0 {
                lemma_first_index_none(cs@, ':');
            }
        }
        if colons != 1 {
            let mut msg = String::new();
            push_all(&mut msg, "Invalid target label: ");
            push_all(&mut msg, s);
            return Err(msg);
        }
        let package = string_from_range(cs.as_slice(), 0, first);
        assert(cs@.subrange(0, first as int) =~= s@.take(first as int));
        let pcs = str_chars(package.as_str());
        let slashes = str_chars("//");
        if !crate::text::starts_with_seq(pcs.as_slice(), slashes.as_slice()) {
            let mut msg = String::new();
            push_all(&mut msg, "Target label must start with //: ");
            push_all(&mut msg, s);
            return Err(msg);
        }
        let target = string_from_range(cs.as_slice(), first + 1, cs.len());
        assert(cs@.subrange(first + 1, cs@.len() as int) =~= s@.skip(first + 1));
        Ok(TargetLabel { package, target })
    }

    /// The text `package:target`.
    pub fn to_string(&self) -> (r: String)
        ensures
            r@ == self.package@ + ":"@ + self.target@,
    {
        let mut r = String::new();
        push_string(&mut r, &self.package);
        push_all(&mut r, ":");
        push_string(&mut r, &self.target);
        r
    }
}

proof fn lemma_first_index_of_at(s: Seq<char>, c: char, i: int)
    requires
        0 <= i < s.len(),
        s[i] == c,
        forall|j: int| 0 <= j < i ==> s[j] != c,
    ensures
        first_index_of(s, c) == i,
    decreases i,
{
    if i > 0 {
        lemma_first_index_of_at(s.skip(1), c, i - 1);
    }
}

proof fn lemma_first_index_none(s: Seq<char>, c: char)
    requires
        forall|j: int| 0 <= j < s.len() ==> s[j] != c,
    ensures
        first_index_of(s, c) == s.len(),
    decreases s.len(),
{
    if s.len() > 0 {
        lemma_first_index_none(s.skip(1), c);
    }
}

impl Value {
    /// The text of a string value.
    pub fn as_string(&self) -> (r: Option<&str>)
        ensures
            match self@ {
                SpecValue::Str(s) => r matches Some(t) && t@ == s,
                _ => r is None,
            },
    {
        match self {
            Value::String(s) => Some(s.as_str()),
            _ => None,
        }
    }
}

proof fn lemma_char_count_concat(a: Seq<char>, b: Seq<char>, c: char)
    ensures
        char_count(a + b, c) == char_count(a, c) + char_count(b, c),
    decreases b.len(),
{
    if b.len() > 0 {
        assert((a + b).drop_last() =~= a + b.drop_last());
        lemma_char_count_concat(a, b.drop_last(), c);
    } else {
        assert(a + b =~= a);
    }
}

proof fn lemma_char_count_zero(s: Seq<char>, c: char)
    requires
        forall|j: int| 0 <= j < s.len() ==> s[j] != c,
    ensures
        char_count(s, c) == 0,
    decreases s.len(),
{
    if s.len() > 0 {
        assert forall|j: int| 0 <= j < s.drop_last().len() implies s.drop_last()[j] != c by {
            assert(s.drop_last()[j] == s[j]);
        }
        lemma_char_count_zero(s.drop_last(), c);
    }
}

/// A label whose package starts with `//` and whose parts hold no `:` reads back, from its
/// text `package:target`, as the same package and target.
pub proof fn law_label_text_reads_back(package: Seq<char>, target: Seq<char>)
    requires
        has_prefix(package, "//"@),
        char_count(package, ':') == 0,
        char_count(target, ':') == 0,
    ensures
        label_parts(package + ":"@ + target) == Some((package, target)),
{
    reveal_strlit(":");
    let s = package + ":"@ + target;
    lemma_char_count_concat(package, ":"@, ':');
    lemma_char_count_concat(package + ":"@, target, ':');
    assert(char_count(":"@, ':') == 1) by {
        assert(":"@.drop_last() =~= Seq::<char>::empty());
        assert(char_count(Seq::<char>::empty(), ':') == 0);
        assert(":"@.last() == ':');
    }
    assert forall|j: int| 0 <= j < package.len() implies s[j] != ':' by {
        assert(s[j] == package[j]);
        if package[j] == ':' {
            assert(package.take(j + 1).drop_last() =~= package.take(j));
            lemma_char_count_concat(package.take(j + 1), package.skip(j + 1), ':');
            assert(package.take(j + 1) + package.skip(j + 1) =~= package);
        }
    }
    assert(s[package.len() as int] == ':');
    lemma_first_index_of_at(s, ':', package.len() as int);
    assert(s.take(package.len() as int) =~= package);
    assert(s.skip(package.len() as int + 1) =~= target);
}

/// A label read from a text prints back as that text: `package:target` is the text read.
pub proof fn law_parsed_label_prints_back(s: Seq<char>, parts: (Seq<char>, Seq<char>))
    requires
        label_parts(s) == Some(parts),
    ensures
        parts.0 + ":"@ + parts.1 == s,
{
    reveal_strlit(":");
    lemma_first_index_bound(s, ':');
    let k = first_index_of(s, ':');
    if k == s.len() {
        lemma_char_count_zero(s, ':');
    }
    assert(parts.0 + ":"@ + parts.1 =~= s);
}

/// What `{:?}` writes for a value.
pub open spec fn value_debug(v: SpecValue) -> Seq<char> {
    match v {
        SpecValue::Str(s) => "String("@ + debug_text(s) + ")"@,
        SpecValue::Int(i) => "Integer("@ + int_text(i as int) + ")"@,
        SpecValue::Bool(b) => if b { "Bool(true)"@ } else { "Bool(false)"@ },
        SpecValue::Label(p, t) => "Label(TargetLabel { package: "@ + debug_text(p) + ", target: "@ + debug_text(t) + " })"@,
        SpecValue::Path(s) => "Path("@ + debug_text(s) + ")"@,
    }
}

/// What `{:?}` writes for a term.
pub open spec fn term_debug(t: SpecTerm) -> Seq<char> {
    match t {
        SpecTerm::Var(v) => "Variable("@ + debug_text(v) + ")"@,
        SpecTerm::Const(c) => "Constant("@ + value_debug(c) + ")"@,
    }
}

/// The `Debug` form of a value, appended to `out`.
pub fn push_value_debug(out: &mut String, v: &Value)
    ensures
        final(out)@ == old(out)@ + value_debug(v@),
{
    match v {
        Value::String(s) => {
            push_all(out, "String(");
            push_string(out, &debug_quoted(s.as_str()));
            push_all(out, ")");
        },
        Value::Integer(i) => {
            push_all(out, "Integer(");
            push_string(out, &i64_to_string(*i));
            push_all(out, ")");
        },
        Value::Bool(b) => {
            if *b {
                push_all(out, "Bool(true)");
            } else {
                push_all(out, "Bool(false)");
            }
        },
        Value::Label(l) => {
            push_all(out, "Label(TargetLabel { package: ");
            push_string(out, &debug_quoted(l.package.as_str()));
            push_all(out, ", target: ");
            push_string(out, &debug_quoted(l.target.as_str()));
            push_all(out, " })");
        },
        Value::Path(s) => {
            push_all(out, "Path(");
            push_string(out, &debug_quoted(s.as_str()));
            push_all(out, ")");
        },
    }
}

/// The `Debug` form of a term, appended to `out`.
pub fn push_term_debug(out: &mut String, t: &Term)
    ensures
        final(out)@ == old(out)@ + term_debug(t@),
{
    match t {
        Term::Variable(v) => {
            push_all(out, "Variable(");
            push_string(out, &debug_quoted(v.as_str()));
            push_all(out, ")");
        },
        Term::Constant(c) => {
            push_all(out, "Constant(");
            push_value_debug(out, c);
            push_all(out, ")");
        },
    }
}

} // verus!
