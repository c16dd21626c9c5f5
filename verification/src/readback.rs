use vstd::prelude::*;
use crate::text::{is_ascii_digit, is_ident_start, is_ident_char, digits_value, nat_digits, digit_char, int_text};
use crate::datalog::lexer::{SpecToken, lex_from, plain_end, esc_content, esc_end, ident_end, digits_end, unescape, int_token};
use crate::format::{escaped, quoted, atom_text, value_text, fact_text, items_text, program_items, term_text, terms_text, predicate_text, body_text, rule_text};
use crate::text::has_prefix;
use crate::datalog::types::{SpecTerm, SpecPredicate};
use crate::datalog::parser::is_var_name;
use crate::datalog::parser::{fact_args, fact_at, lift_vals, dot_from, has_rule_sep, program_from, program_spec, pred_args, pred_at, body_from, rule_at, wild_count, anon_name, lift_terms, comparison_at, operand_term, eq_name, neq_name, not_name, not_prefix};
use crate::datalog::lexer::tokenize_spec;
use crate::datalog::types::SpecRule;
use crate::text::join;
use crate::datalog::types::{SpecValue, SpecFact};

verus! {

/// How one character of a string is written inside a literal.
pub open spec fn escaped_char(c: char) -> Seq<char> {
    if c == '"' || c == '\\' { seq!['\\', c] } else { seq![c] }
}

proof fn lemma_escaped_append(a: Seq<char>, b: Seq<char>)
    ensures
        escaped(a + b) == escaped(a) + escaped(b),
    decreases b.len(),
{
    if b.len() == 0 {
        assert(a + b =~= a);
        assert(escaped(b) =~= Seq::<char>::empty());
        assert(escaped(a) + escaped(b) =~= escaped(a));
    } else {
        lemma_escaped_append(a, b.drop_last());
        assert((a + b).drop_last() =~= a + b.drop_last());
        assert((a + b).last() == b.last());
        assert(escaped(a) + escaped(b.drop_last()) + escaped_char(b.last())
            =~= escaped(a) + (escaped(b.drop_last()) + escaped_char(b.last())));
    }
}

proof fn lemma_escaped_first(t: Seq<char>)
    requires
        t.len() > 0,
    ensures
        escaped(t) == escaped_char(t[0]) + escaped(t.skip(1)),
{
    lemma_escaped_append(seq![t[0]], t.skip(1));
    assert(seq![t[0]] + t.skip(1) =~= t);
    assert(seq![t[0]].drop_last() =~= Seq::<char>::empty());
    assert(escaped(Seq::<char>::empty()) =~= Seq::<char>::empty());
    assert(seq![t[0]].last() == t[0]);
    assert(escaped(seq![t[0]]) == escaped(Seq::<char>::empty()) + escaped_char(t[0]));
    assert(escaped(seq![t[0]]) =~= escaped_char(t[0]));
}

/// Reading the escaped text of `t` up to its closing quote gives `t` back.
proof fn lemma_esc_reads_back(pre: Seq<char>, t: Seq<char>, rest: Seq<char>)
    ensures
        esc_content(pre + escaped(t) + seq!['"'] + rest, pre.len() as int) == t,
        esc_end(pre + escaped(t) + seq!['"'] + rest, pre.len() as int) == pre.len() + escaped(t).len(),
    decreases t.len(),
{
    let cs = pre + escaped(t) + seq!['"'] + rest;
    let j = pre.len() as int;
    if t.len() == 0 {
        assert(escaped(t) =~= Seq::<char>::empty());
        assert(cs[j] == '"');
        assert(t =~= Seq::<char>::empty());
    } else {
        let c = t[0];
        let t2 = t.skip(1);
        lemma_escaped_first(t);
        if c == '"' || c == '\\' {
            let pre2 = pre + seq!['\\', c];
            assert(cs =~= pre2 + escaped(t2) + seq!['"'] + rest);
            lemma_esc_reads_back(pre2, t2, rest);
            assert(cs[j] == '\\' && cs[j + 1] == c);
            assert(unescape(c) == seq![c]);
            assert(seq![c] + t2 =~= t);
        } else {
            let pre2 = pre + seq![c];
            assert(cs =~= pre2 + escaped(t2) + seq!['"'] + rest);
            lemma_esc_reads_back(pre2, t2, rest);
            assert(cs[j] == c);
            assert(seq![c] + t2 =~= t);
        }
    }
}

/// Scanning the escaped text of `t` for a quote or backslash: it stops at the closing quote
/// with `t` before it, or at a backslash from which the escaped reading gives the rest of `t`.
proof fn lemma_plain_reads_back(pre: Seq<char>, t: Seq<char>, rest: Seq<char>)
    ensures ({
        let cs = pre + escaped(t) + seq!['"'] + rest;
        let j = pre.len() as int;
        let e = j + escaped(t).len();
        let p = plain_end(cs, j);
        &&& j <= p <= e
        &&& p == e ==> cs.subrange(j, p) == t
        &&& p < e ==> cs[p] == '\\' && cs.subrange(j, p) + esc_content(cs, p) == t && esc_end(cs, p) == e
    }),
    decreases t.len(),
{
    let cs = pre + escaped(t) + seq!['"'] + rest;
    let j = pre.len() as int;
    if t.len() == 0 {
        assert(escaped(t) =~= Seq::<char>::empty());
        assert(cs[j] == '"');
        assert(cs.subrange(j, j) =~= t);
    } else {
        let c = t[0];
        let t2 = t.skip(1);
        lemma_escaped_first(t);
        if c == '"' || c == '\\' {
            assert(cs[j] == '\\');
            assert(cs =~= pre + escaped(t) + seq!['"'] + rest);
            lemma_esc_reads_back(pre, t, rest);
            assert(cs.subrange(j, j) + esc_content(cs, j) =~= t);
        } else {
            let pre2 = pre + seq![c];
            assert(cs =~= pre2 + escaped(t2) + seq!['"'] + rest);
            lemma_plain_reads_back(pre2, t2, rest);
            assert(cs[j] == c);
            let p = plain_end(cs, j + 1);
            assert(plain_end(cs, j) == p);
            assert(cs.subrange(j, p) =~= seq![c] + cs.subrange(j + 1, p));
            assert(seq![c] + t2 =~= t);
            if p < j + escaped(t).len() {
                assert(cs.subrange(j, p) + esc_content(cs, p) =~= seq![c] + (cs.subrange(j + 1, p) + esc_content(cs, p)));
            }
        }
    }
}

/// A quoted string reads back as a string token of its text.
pub proof fn lemma_quoted_token(pre: Seq<char>, s: Seq<char>, rest: Seq<char>)
    ensures
        lex_from(pre + quoted(s) + rest, pre.len() as int)
            == seq![SpecToken::Str(s)] + lex_from(pre + quoted(s) + rest, (pre.len() + quoted(s).len()) as int),
{
    let cs = pre + quoted(s) + rest;
    let i = pre.len() as int;
    let pre1 = pre + seq!['"'];
    reveal_strlit("\"");
    assert(cs =~= pre1 + escaped(s) + seq!['"'] + rest);
    lemma_plain_reads_back(pre1, s, rest);
    assert(cs[i] == '"');
    let e = i + 1 + escaped(s).len();
    assert(quoted(s).len() == escaped(s).len() + 2);
    assert(cs[e] == '"');
    let p = plain_end(cs, i + 1);
    if p < e {
        assert(p < cs.len() && cs[p] == '\\');
    } else {
        assert(!(cs[p] == '\\'));
    }
}

proof fn lemma_ident_end(cs: Seq<char>, i: int, e: int, k: int)
    requires
        0 <= i <= k <= e <= cs.len(),
        forall|m: int| i <= m < e ==> is_ident_char(#[trigger] cs[m]),
        e == cs.len() || !is_ident_char(cs[e]),
    ensures
        ident_end(cs, k) == e,
    decreases e - k,
{
    if k < e {
        lemma_ident_end(cs, i, e, k + 1);
    }
}

/// An identifier followed by a character that cannot continue it reads back as an
/// identifier token.
pub proof fn lemma_ident_token(pre: Seq<char>, w: Seq<char>, rest: Seq<char>)
    requires
        w.len() > 0,
        is_ident_start(w[0]),
        forall|k: int| 0 <= k < w.len() ==> is_ident_char(#[trigger] w[k]),
        rest.len() == 0 || !is_ident_char(rest[0]),
    ensures
        lex_from(pre + w + rest, pre.len() as int)
            == seq![SpecToken::Ident(w)] + lex_from(pre + w + rest, (pre.len() + w.len()) as int),
{
    let cs = pre + w + rest;
    let i = pre.len() as int;
    let e = i + w.len();
    assert forall|m: int| i <= m < e implies is_ident_char(#[trigger] cs[m]) by {
        assert(cs[m] == w[m - i]);
    }
    if e < cs.len() {
        assert(cs[e] == rest[0]);
    }
    lemma_ident_end(cs, i, e, i);
    assert(cs[i] == w[0]);
    assert(cs.subrange(i, e) =~= w);
}

proof fn lemma_digits_end(cs: Seq<char>, i: int, e: int, k: int)
    requires
        0 <= i <= k <= e <= cs.len(),
        forall|m: int| i <= m < e ==> is_ascii_digit(#[trigger] cs[m]),
        e == cs.len() || !is_ascii_digit(cs[e]),
    ensures
        digits_end(cs, k) == e,
    decreases e - k,
{
    if k < e {
        lemma_digits_end(cs, i, e, k + 1);
    }
}

proof fn lemma_digit_char(d: nat)
    requires
        d < 10,
    ensures
        is_ascii_digit(digit_char(d)),
        digit_char(d) as u32 - '0' as u32 == d,
{
}

proof fn lemma_nat_digits_read(n: nat)
    ensures
        nat_digits(n).len() > 0,
        forall|k: int| 0 <= k < nat_digits(n).len() ==> is_ascii_digit(#[trigger] nat_digits(n)[k]),
        digits_value(nat_digits(n)) == n,
    decreases n,
{
    if n < 10 {
        lemma_digit_char(n);
        let d = seq![digit_char(n)];
        assert(d.drop_last() =~= Seq::<char>::empty());
        assert(digits_value(d) == digits_value(d.drop_last()) * 10 + ((d.last() as u32 - '0' as u32) as nat));
    } else {
        lemma_nat_digits_read(n / 10);
        let r = (n % 10) as nat;
        lemma_digit_char(r);
        let d = nat_digits(n / 10).push(digit_char(r));
        assert(d.drop_last() =~= nat_digits(n / 10));
        assert forall|k: int| 0 <= k < d.len() implies is_ascii_digit(#[trigger] d[k]) by {
            if k < d.len() - 1 {
                assert(d[k] == nat_digits(n / 10)[k]);
            }
        }
        assert(digits_value(d) == digits_value(d.drop_last()) * 10 + ((d.last() as u32 - '0' as u32) as nat));
        assert((n / 10) * 10 + n % 10 == n) by (nonlinear_arith);
    }
}

/// A written integer followed by a character that is not a digit reads back as that integer.
pub proof fn lemma_int_token(pre: Seq<char>, n: i64, rest: Seq<char>)
    requires
        rest.len() == 0 || !is_ascii_digit(rest[0]),
    ensures
        lex_from(pre + int_text(n as int) + rest, pre.len() as int)
            == seq![SpecToken::Int(n)] + lex_from(pre + int_text(n as int) + rest, (pre.len() + int_text(n as int).len()) as int),
{
    let w = int_text(n as int);
    let cs = pre + w + rest;
    let i = pre.len() as int;
    let e = i + w.len();
    if e < cs.len() {
        assert(cs[e] == rest[0]);
    }
    if n < 0 {
        let m = (-(n as int)) as nat;
        let ds = nat_digits(m);
        lemma_nat_digits_read(m);
        assert(w == seq!['-'] + ds);
        assert forall|k: int| i + 1 <= k < e implies is_ascii_digit(#[trigger] cs[k]) by {
            assert(cs[k] == ds[k - i - 1]);
        }
        lemma_digits_end(cs, i + 1, e, i + 1);
        assert(cs[i] == '-');
        assert(cs[i + 1] == ds[0]);
        assert(cs.subrange(i + 1, e) =~= ds);
        assert(int_token(ds, true) == seq![SpecToken::Int(n)]);
    } else {
        let m = n as nat;
        let ds = nat_digits(m);
        lemma_nat_digits_read(m);
        assert(w == ds);
        assert forall|k: int| i <= k < e implies is_ascii_digit(#[trigger] cs[k]) by {
            assert(cs[k] == ds[k - i]);
        }
        lemma_digits_end(cs, i, e, i);
        assert(cs[i] == ds[0]);
        assert(cs.subrange(i, e) =~= ds);
        assert(int_token(ds, false) == seq![SpecToken::Int(n)]);
    }
}

/// Whether a text is an identifier of the lexer: an ASCII letter or `_`, then ASCII
/// letters, digits and `_`.
pub open spec fn lexer_ident(w: Seq<char>) -> bool {
    w.len() > 0 && is_ident_start(w[0]) && forall|k: int| 0 <= k < w.len() ==> is_ident_char(#[trigger] w[k])
}

/// Whether a value of a fact reads back as itself once written: a string or an integer, and a
/// string written without quotes is an identifier of the lexer.
pub open spec fn readable_value(v: SpecValue) -> bool {
    match v {
        SpecValue::Str(s) => atom_text(s) ==> lexer_ident(s),
        SpecValue::Int(_) => true,
        _ => false,
    }
}

/// Whether a fact reads back as itself once written.
pub open spec fn readable_fact(f: SpecFact) -> bool {
    lexer_ident(f.predicate) && forall|k: int| 0 <= k < f.args.len() ==> readable_value(#[trigger] f.args[k])
}

/// The token a written value reads as.
pub open spec fn value_token(v: SpecValue) -> SpecToken {
    match v {
        SpecValue::Str(s) => if atom_text(s) { SpecToken::Ident(s) } else { SpecToken::Str(s) },
        SpecValue::Int(i) => SpecToken::Int(i),
        _ => SpecToken::Dot,
    }
}

/// The tokens of written values separated by `, `.
pub open spec fn args_tokens(vs: Seq<SpecValue>) -> Seq<SpecToken>
    decreases vs.len(),
{
    if vs.len() == 0 {
        Seq::empty()
    } else if vs.len() == 1 {
        seq![value_token(vs[0])]
    } else {
        args_tokens(vs.drop_last()) + seq![SpecToken::Comma, value_token(vs.last())]
    }
}

/// The tokens of a written fact.
pub open spec fn fact_tokens(f: SpecFact) -> Seq<SpecToken> {
    seq![SpecToken::Ident(f.predicate), SpecToken::LParen] + args_tokens(f.args) + seq![SpecToken::RParen, SpecToken::Dot]
}

pub open spec fn value_texts(vs: Seq<SpecValue>) -> Seq<Seq<char>> {
    vs.map_values(|v: SpecValue| value_text(v))
}

/// Whether a character ends a written term.
pub open spec fn separator(c: char) -> bool {
    c == ',' || c == ')' || c == '.' || c == ' ' || c == '\n'
}

proof fn lemma_value_reads_back(pre: Seq<char>, v: SpecValue, rest: Seq<char>)
    requires
        readable_value(v),
        rest.len() > 0,
        separator(rest[0]),
    ensures
        lex_from(pre + value_text(v) + rest, pre.len() as int)
            == seq![value_token(v)] + lex_from(pre + value_text(v) + rest, (pre.len() + value_text(v).len()) as int),
{
    match v {
        SpecValue::Str(s) => {
            if atom_text(s) {
                lemma_ident_token(pre, s, rest);
            } else {
                lemma_quoted_token(pre, s, rest);
            }
        },
        SpecValue::Int(n) => {
            lemma_int_token(pre, n, rest);
        },
        _ => {},
    }
}

proof fn lemma_args_read_back(pre: Seq<char>, vs: Seq<SpecValue>, rest: Seq<char>)
    requires
        forall|k: int| 0 <= k < vs.len() ==> readable_value(#[trigger] vs[k]),
        rest.len() > 0,
        rest[0] == ')' || rest[0] == ',',
    ensures
        lex_from(pre + join(value_texts(vs), ", "@) + rest, pre.len() as int)
            == args_tokens(vs) + lex_from(pre + join(value_texts(vs), ", "@) + rest, (pre.len() + join(value_texts(vs), ", "@).len()) as int),
    decreases vs.len(),
{
    let j = join(value_texts(vs), ", "@);
    let cs = pre + j + rest;
    if vs.len() == 0 {
        assert(j =~= Seq::<char>::empty());
        assert(args_tokens(vs) =~= Seq::<SpecToken>::empty());
    } else if vs.len() == 1 {
        assert(j == value_text(vs[0]));
        lemma_value_reads_back(pre, vs[0], rest);
    } else {
        reveal_strlit(", ");
        let d = vs.drop_last();
        let last = vs.last();
        assert(value_texts(vs).drop_last() =~= value_texts(d));
        assert(value_texts(vs).last() == value_text(last));
        let jd = join(value_texts(d), ", "@);
        assert(j == jd + ", "@ + value_text(last));
        assert forall|k: int| 0 <= k < d.len() implies readable_value(#[trigger] d[k]) by {
            assert(d[k] == vs[k]);
        }
        let rest1 = ", "@ + value_text(last) + rest;
        assert(cs =~= pre + jd + rest1);
        assert(rest1[0] == ',');
        lemma_args_read_back(pre, d, rest1);
        let p1 = (pre.len() + jd.len()) as int;
        assert(cs[p1] == ',');
        assert(cs[p1 + 1] == ' ');
        let pre2 = pre + jd + ", "@;
        assert(cs =~= pre2 + value_text(last) + rest);
        assert(readable_value(vs[vs.len() - 1]));
        lemma_value_reads_back(pre2, last, rest);
        assert(lex_from(cs, p1) == seq![SpecToken::Comma] + lex_from(cs, p1 + 1));
        assert(lex_from(cs, p1 + 1) == lex_from(cs, p1 + 2));
        assert(args_tokens(vs) == args_tokens(d) + seq![SpecToken::Comma, value_token(last)]);
    }
}

/// A written fact reads back as its tokens.
pub proof fn lemma_fact_reads_back(pre: Seq<char>, f: SpecFact, rest: Seq<char>)
    requires
        readable_fact(f),
    ensures
        lex_from(pre + fact_text(f) + rest, pre.len() as int)
            == fact_tokens(f) + lex_from(pre + fact_text(f) + rest, (pre.len() + fact_text(f).len()) as int),
{
    reveal_strlit("(");
    reveal_strlit(").");
    let j = join(value_texts(f.args), ", "@);
    assert(fact_text(f) == f.predicate + "("@ + j + ")."@);
    let cs = pre + fact_text(f) + rest;
    let i = pre.len() as int;
    let n = f.predicate.len() as int;
    let rest1 = "("@ + j + ")."@ + rest;
    assert(cs =~= pre + f.predicate + rest1);
    assert(rest1[0] == '(');
    lemma_ident_token(pre, f.predicate, rest1);
    assert(cs[i + n] == '(');
    let pre2 = pre + f.predicate + "("@;
    let rest2 = ")."@ + rest;
    assert(cs =~= pre2 + j + rest2);
    assert(forall|k: int| 0 <= k < f.args.len() ==> readable_value(#[trigger] f.args[k]));
    lemma_args_read_back(pre2, f.args, rest2);
    let q = (pre2.len() + j.len()) as int;
    assert(cs[q] == ')');
    assert(cs[q + 1] == '.');
    assert(q + 2 == pre.len() + fact_text(f).len());
    assert(lex_from(cs, q) == seq![SpecToken::RParen] + lex_from(cs, q + 1));
    assert(lex_from(cs, q + 1) == seq![SpecToken::Dot] + lex_from(cs, q + 2));
    assert(fact_tokens(f) =~= seq![SpecToken::Ident(f.predicate), SpecToken::LParen] + args_tokens(f.args) + seq![SpecToken::RParen, SpecToken::Dot]);
}

proof fn lemma_args_tokens_front(vs: Seq<SpecValue>)
    requires
        vs.len() >= 2,
    ensures
        args_tokens(vs) == seq![value_token(vs[0]), SpecToken::Comma] + args_tokens(vs.skip(1)),
    decreases vs.len(),
{
    let d = vs.drop_last();
    if vs.len() == 2 {
        assert(vs.skip(1) =~= seq![vs[1]]);
        assert(d =~= seq![vs[0]]);
        assert(args_tokens(d) == seq![value_token(d[0])]);
        assert(args_tokens(vs.skip(1)) == seq![value_token(vs.skip(1)[0])]);
        assert(args_tokens(vs) == args_tokens(d) + seq![SpecToken::Comma, value_token(vs.last())]);
        assert(args_tokens(vs) =~= seq![value_token(vs[0]), SpecToken::Comma] + args_tokens(vs.skip(1)));
    } else {
        lemma_args_tokens_front(d);
        assert(d.skip(1) =~= vs.skip(1).drop_last());
        assert(vs.skip(1).last() == vs.last());
        assert(d[0] == vs[0]);
        let t = vs.skip(1);
        assert(t.len() >= 2);
        assert(args_tokens(t) == args_tokens(t.drop_last()) + seq![SpecToken::Comma, value_token(t.last())]);
        assert(args_tokens(vs) == args_tokens(d) + seq![SpecToken::Comma, value_token(vs.last())]);
        assert(args_tokens(vs) =~= seq![value_token(vs[0]), SpecToken::Comma] + args_tokens(vs.skip(1)));
    }
}

proof fn lemma_args_tokens_kinds(vs: Seq<SpecValue>, k: int)
    requires
        forall|m: int| 0 <= m < vs.len() ==> readable_value(#[trigger] vs[m]),
        0 <= k < args_tokens(vs).len(),
    ensures
        args_tokens(vs)[k] is Comma || args_tokens(vs)[k] is Ident || args_tokens(vs)[k] is Str || args_tokens(vs)[k] is Int,
    decreases vs.len(),
{
    assert(readable_value(vs[vs.len() - 1]));
    if vs.len() >= 2 {
        let d = vs.drop_last();
        assert forall|m: int| 0 <= m < d.len() implies readable_value(#[trigger] d[m]) by {
            assert(d[m] == vs[m]);
        }
        if k < args_tokens(d).len() {
            lemma_args_tokens_kinds(d, k);
        }
    } else {
        assert(readable_value(vs[0]));
    }
}

/// The argument tokens of a written fact, followed by `)`, read back as its values.
proof fn lemma_fact_args_read_back(ts: Seq<SpecToken>, j: int, vs: Seq<SpecValue>)
    requires
        0 <= j,
        j + args_tokens(vs).len() < ts.len(),
        forall|k: int| 0 <= k < args_tokens(vs).len() ==> ts[j + k] == #[trigger] args_tokens(vs)[k],
        ts[j + args_tokens(vs).len()] is RParen,
        forall|m: int| 0 <= m < vs.len() ==> readable_value(#[trigger] vs[m]),
    ensures
        fact_args(ts, j) == Ok::<(Seq<SpecValue>, int), Seq<char>>((vs, j + args_tokens(vs).len() + 1)),
    decreases vs.len(),
{
    if vs.len() == 0 {
        assert(vs =~= Seq::<SpecValue>::empty());
    } else {
        let v = vs[0];
        assert(readable_value(v));
        if vs.len() == 1 {
            assert(args_tokens(vs) == seq![value_token(v)]);
            assert(args_tokens(vs)[0] == value_token(v));
            assert(ts[j + 0] == args_tokens(vs)[0]);
            assert(ts[j] == value_token(v));
            assert(fact_args(ts, j + 1) == Ok::<(Seq<SpecValue>, int), Seq<char>>((Seq::<SpecValue>::empty(), j + 2)));
            assert(seq![v] + Seq::<SpecValue>::empty() =~= vs);
        } else {
            let t = vs.skip(1);
            lemma_args_tokens_front(vs);
            assert(args_tokens(vs)[0] == value_token(v));
            assert(args_tokens(vs)[1] == SpecToken::Comma);
            assert(ts[j + 0] == args_tokens(vs)[0]);
            assert(ts[j + 1] == args_tokens(vs)[1]);
            assert(ts[j] == value_token(v));
            assert(ts[j + 1] is Comma);
            assert forall|m: int| 0 <= m < t.len() implies readable_value(#[trigger] t[m]) by {
                assert(t[m] == vs[m + 1]);
            }
            assert forall|k: int| 0 <= k < args_tokens(t).len() implies ts[j + 2 + k] == #[trigger] args_tokens(t)[k] by {
                assert(args_tokens(vs)[k + 2] == args_tokens(t)[k]);
            }
            lemma_fact_args_read_back(ts, j + 2, t);
            assert(fact_args(ts, j + 1) == fact_args(ts, j + 2));
            assert(seq![v] + t =~= vs);
        }
    }
}

/// The tokens of written facts, one after another.
pub open spec fn facts_tokens(fs: Seq<SpecFact>) -> Seq<SpecToken>
    decreases fs.len(),
{
    if fs.len() == 0 { Seq::empty() } else { fact_tokens(fs[0]) + facts_tokens(fs.skip(1)) }
}

proof fn lemma_facts_tokens_back(fs: Seq<SpecFact>)
    requires
        fs.len() > 0,
    ensures
        facts_tokens(fs) == facts_tokens(fs.drop_last()) + fact_tokens(fs.last()),
    decreases fs.len(),
{
    if fs.len() == 1 {
        assert(fs.skip(1) =~= Seq::<SpecFact>::empty());
        assert(fs.drop_last() =~= Seq::<SpecFact>::empty());
        assert(facts_tokens(fs) =~= facts_tokens(fs.drop_last()) + fact_tokens(fs.last()));
    } else {
        lemma_facts_tokens_back(fs.skip(1));
        assert(fs.skip(1).drop_last() =~= fs.drop_last().skip(1));
        assert(fs.skip(1).last() == fs.last());
        assert(fs.drop_last()[0] == fs[0]);
        assert(facts_tokens(fs) =~= facts_tokens(fs.drop_last()) + fact_tokens(fs.last()));
    }
}

proof fn lemma_dot_from(ts: Seq<SpecToken>, m: int, d: int)
    requires
        0 <= m <= d < ts.len(),
        forall|k: int| m <= k < d ==> !(#[trigger] ts[k] is Dot),
        ts[d] is Dot,
    ensures
        dot_from(ts, m) == d,
    decreases d - m,
{
    if m < d {
        lemma_dot_from(ts, m + 1, d);
    }
}

/// The tokens of written facts and then rules read back, as a program, as those facts and
/// rules.
proof fn lemma_program_reads(ts: Seq<SpecToken>, i: int, gs: Seq<SpecFact>, qs: Seq<SpecRule>)
    requires
        0 <= i,
        i + facts_tokens(gs).len() + rules_tokens(qs).len() == ts.len(),
        forall|k: int| 0 <= k < facts_tokens(gs).len() ==> ts[i + k] == #[trigger] facts_tokens(gs)[k],
        forall|k: int| 0 <= k < rules_tokens(qs).len() ==> ts[i + facts_tokens(gs).len() + k] == #[trigger] rules_tokens(qs)[k],
        forall|m: int| 0 <= m < gs.len() ==> readable_fact(#[trigger] gs[m]),
        forall|m: int| 0 <= m < qs.len() ==> readable_rule(#[trigger] qs[m]),
    ensures
        program_from(ts, i) == Ok::<(Seq<SpecFact>, Seq<SpecRule>), Seq<char>>((gs, qs)),
    decreases gs.len(),
{
    if gs.len() == 0 {
        assert(gs =~= Seq::<SpecFact>::empty());
        lemma_program_reads_rules(ts, i, qs);
    } else {
        let g = gs[0];
        assert(readable_fact(g));
        let ft = fact_tokens(g);
        let a = args_tokens(g.args);
        let la = a.len() as int;
        assert(facts_tokens(gs) == ft + facts_tokens(gs.skip(1)));
        assert forall|k: int| 0 <= k < ft.len() implies ts[i + k] == #[trigger] ft[k] by {
            assert(facts_tokens(gs)[k] == ft[k]);
        }
        assert(ft.len() == la + 4);
        assert(ts[i + 0] == ft[0]);
        assert(ts[i + 1] == ft[1]);
        assert(ts[i] == SpecToken::Ident(g.predicate));
        assert(ts[i + 1] is LParen);
        assert(ts[i + (la + 3)] == ft[la + 3]);
        assert(ts[i + (la + 2)] == ft[la + 2]);
        assert(ts[i + la + 3] is Dot);
        assert(ts[i + la + 2] is RParen);
        let d = i + la + 3;
        assert forall|k: int| i <= k < d implies !(#[trigger] ts[k] is Dot) && !(ts[k] is RuleSep) by {
            assert(ts[k] == ft[k - i]);
            if 2 <= k - i < la + 2 {
                assert(ft[k - i] == a[k - i - 2]);
                lemma_args_tokens_kinds(g.args, k - i - 2);
            }
        }
        lemma_dot_from(ts, i, d);
        assert(!has_rule_sep(ts, i, d));
        assert forall|k: int| 0 <= k < la implies ts[i + 2 + k] == #[trigger] a[k] by {
            assert(ft[k + 2] == a[k]);
        }
        assert(forall|m: int| 0 <= m < g.args.len() ==> readable_value(#[trigger] g.args[m]));
        lemma_fact_args_read_back(ts, i + 2, g.args);
        assert(fact_at(ts, i) == Ok::<(SpecFact, int), Seq<char>>((g, i + la + 4)));
        let rest = gs.skip(1);
        assert forall|k: int| 0 <= k < facts_tokens(rest).len() implies ts[i + la + 4 + k] == #[trigger] facts_tokens(rest)[k] by {
            assert(facts_tokens(gs)[la + 4 + k] == facts_tokens(rest)[k]);
        }
        assert forall|m: int| 0 <= m < rest.len() implies readable_fact(#[trigger] rest[m]) by {
            assert(rest[m] == gs[m + 1]);
        }
        assert forall|k: int| 0 <= k < rules_tokens(qs).len() implies ts[i + la + 4 + facts_tokens(rest).len() + k] == #[trigger] rules_tokens(qs)[k] by {
            assert(i + la + 4 + facts_tokens(rest).len() + k == i + facts_tokens(gs).len() + k);
        }
        lemma_program_reads(ts, i + la + 4, rest, qs);
        assert(seq![g] + rest =~= gs);
    }
}

/// The text of the first `k` items of a written program.
pub open spec fn prog_text(fs: Seq<SpecFact>, rs: Seq<SpecRule>, k: int) -> Seq<char> {
    items_text(fs, rs, program_items(fs.len(), rs.len()), k).0
}


/// Whether a term is a variable that stands for a `_` (and is written as one).
pub open spec fn is_anon_var(t: SpecTerm) -> bool {
    t matches SpecTerm::Var(v) && has_prefix(v, "_anon_"@)
}

/// Whether a term reads back as itself once written (a `_` counts as read back when the
/// numbering of the rule's wildcards agrees): a variable is an identifier of the lexer that
/// names a variable; a constant is a readable value other than the string `_`, and a string
/// written without quotes does not name a variable. An operand of `=` or `!=` is no wildcard.
pub open spec fn readable_term(t: SpecTerm, operand: bool) -> bool {
    match t {
        SpecTerm::Var(v) => if has_prefix(v, "_anon_"@) {
            !operand
        } else {
            lexer_ident(v) && is_var_name(v) && v != seq!['_']
        },
        SpecTerm::Const(c) => readable_value(c) && c != SpecValue::Str(seq!['_'])
            && match c {
                SpecValue::Str(s) => atom_text(s) ==> !is_var_name(s),
                _ => true,
            },
    }
}

/// The token a written term reads as.
pub open spec fn term_token(t: SpecTerm) -> SpecToken {
    match t {
        SpecTerm::Var(v) => if has_prefix(v, "_anon_"@) { SpecToken::Ident(seq!['_']) } else { SpecToken::Ident(v) },
        SpecTerm::Const(c) => value_token(c),
    }
}

/// The tokens of written terms separated by `, `.
pub open spec fn terms_tokens(ts: Seq<SpecTerm>) -> Seq<SpecToken>
    decreases ts.len(),
{
    if ts.len() == 0 {
        Seq::empty()
    } else if ts.len() == 1 {
        seq![term_token(ts[0])]
    } else {
        terms_tokens(ts.drop_last()) + seq![SpecToken::Comma, term_token(ts.last())]
    }
}

proof fn lemma_term_reads_back(pre: Seq<char>, t: SpecTerm, op: bool, rest: Seq<char>)
    requires
        readable_term(t, op),
        rest.len() > 0,
        separator(rest[0]),
    ensures
        lex_from(pre + term_text(t) + rest, pre.len() as int)
            == seq![term_token(t)] + lex_from(pre + term_text(t) + rest, (pre.len() + term_text(t).len()) as int),
{
    match t {
        SpecTerm::Var(v) => {
            if has_prefix(v, "_anon_"@) {
                reveal_strlit("_");
                assert("_"@ =~= seq!['_']);
                lemma_ident_token(pre, seq!['_'], rest);
            } else {
                lemma_ident_token(pre, v, rest);
            }
        },
        SpecTerm::Const(c) => {
            lemma_value_reads_back(pre, c, rest);
        },
    }
}

proof fn lemma_terms_read_back(pre: Seq<char>, ts: Seq<SpecTerm>, rest: Seq<char>)
    requires
        forall|k: int| 0 <= k < ts.len() ==> readable_term(#[trigger] ts[k], false),
        rest.len() > 0,
        rest[0] == ')' || rest[0] == ',',
    ensures
        lex_from(pre + terms_text(ts) + rest, pre.len() as int)
            == terms_tokens(ts) + lex_from(pre + terms_text(ts) + rest, (pre.len() + terms_text(ts).len()) as int),
    decreases ts.len(),
{
    let texts = ts.map_values(|t: SpecTerm| term_text(t));
    let j = terms_text(ts);
    assert(j == join(texts, ", "@));
    let cs = pre + j + rest;
    if ts.len() == 0 {
        assert(j =~= Seq::<char>::empty());
        assert(terms_tokens(ts) =~= Seq::<SpecToken>::empty());
    } else if ts.len() == 1 {
        assert(j == term_text(ts[0]));
        lemma_term_reads_back(pre, ts[0], false, rest);
    } else {
        reveal_strlit(", ");
        let d = ts.drop_last();
        let last = ts.last();
        assert(texts.drop_last() =~= d.map_values(|t: SpecTerm| term_text(t)));
        assert(texts.last() == term_text(last));
        let jd = terms_text(d);
        assert(j == jd + ", "@ + term_text(last));
        assert forall|k: int| 0 <= k < d.len() implies readable_term(#[trigger] d[k], false) by {
            assert(d[k] == ts[k]);
        }
        let rest1 = ", "@ + term_text(last) + rest;
        assert(cs =~= pre + jd + rest1);
        assert(rest1[0] == ',');
        lemma_terms_read_back(pre, d, rest1);
        let p1 = (pre.len() + jd.len()) as int;
        assert(cs[p1] == ',');
        assert(cs[p1 + 1] == ' ');
        let pre2 = pre + jd + ", "@;
        assert(cs =~= pre2 + term_text(last) + rest);
        assert(readable_term(ts[ts.len() - 1], false));
        lemma_term_reads_back(pre2, last, false, rest);
        assert(lex_from(cs, p1) == seq![SpecToken::Comma] + lex_from(cs, p1 + 1));
        assert(lex_from(cs, p1 + 1) == lex_from(cs, p1 + 2));
    }
}

/// Whether a predicate is written as `X = t` or `X != t`.
pub open spec fn is_comparison(p: SpecPredicate) -> bool {
    (p.name == "="@ || p.name == "!="@) && p.args.len() == 2
}

/// Whether a predicate is written in a form that reads back: `X = t` or `X != t` with a
/// variable before the operator and no wildcard, or a name (after `not:` for a negation)
/// that is an identifier of the lexer other than `not` and `_`, with readable arguments.
pub open spec fn pred_shape(p: SpecPredicate) -> bool {
    if is_comparison(p) {
        &&& p.args[0] matches SpecTerm::Var(v) && !has_prefix(v, "_anon_"@)
        &&& readable_term(p.args[0], true)
        &&& readable_term(p.args[1], true)
    } else {
        &&& (if has_prefix(p.name, "not:"@) {
            lexer_ident(p.name.skip(4)) && p.name.skip(4) != "not"@ && p.name.skip(4) != seq!['_']
        } else {
            lexer_ident(p.name) && p.name != "not"@ && p.name != seq!['_']
        })
        &&& forall|k: int| 0 <= k < p.args.len() ==> readable_term(#[trigger] p.args[k], false)
    }
}

/// Whether a predicate reads back as itself once written, its wildcards numbered from `w`.
pub open spec fn readable_pred(p: SpecPredicate, w: nat) -> bool {
    pred_shape(p) && (!is_comparison(p) ==> anon_from(p.args, w))
}

/// The number of wildcards of a written predicate.
pub open spec fn pred_anon(p: SpecPredicate) -> nat {
    if is_comparison(p) { 0 } else { anon_count(p.args) }
}

pub open spec fn anon_one(t: SpecTerm) -> nat {
    if is_anon_var(t) { 1 } else { 0 }
}

/// Whether the wildcard variables among the terms are numbered from `w` in order.
pub open spec fn anon_from(ts: Seq<SpecTerm>, w: nat) -> bool
    decreases ts.len(),
{
    if ts.len() == 0 {
        true
    } else {
        &&& is_anon_var(ts[0]) ==> ts[0] == SpecTerm::Var(crate::datalog::parser::anon_name(w))
        &&& anon_from(ts.skip(1), w + anon_one(ts[0]))
    }
}

/// The number of wildcard variables among the terms.
pub open spec fn anon_count(ts: Seq<SpecTerm>) -> nat
    decreases ts.len(),
{
    if ts.len() == 0 { 0 } else { anon_one(ts[0]) + anon_count(ts.skip(1)) }
}

/// The tokens of a written predicate.
pub open spec fn pred_tokens(p: SpecPredicate) -> Seq<SpecToken> {
    if is_comparison(p) {
        seq![term_token(p.args[0]), if p.name == "="@ { SpecToken::Eq } else { SpecToken::NotEq }, term_token(p.args[1])]
    } else if has_prefix(p.name, "not:"@) {
        seq![SpecToken::Ident("not"@), SpecToken::LParen, SpecToken::Ident(p.name.skip(4)), SpecToken::LParen]
            + terms_tokens(p.args) + seq![SpecToken::RParen, SpecToken::RParen]
    } else {
        seq![SpecToken::Ident(p.name), SpecToken::LParen] + terms_tokens(p.args) + seq![SpecToken::RParen]
    }
}

proof fn lemma_comparison_reads_back(pre: Seq<char>, p: SpecPredicate, rest: Seq<char>)
    requires
        pred_shape(p),
        rest.len() > 0,
        separator(rest[0]),
        is_comparison(p),
    ensures
        lex_from(pre + predicate_text(p) + rest, pre.len() as int)
            == pred_tokens(p) + lex_from(pre + predicate_text(p) + rest, (pre.len() + predicate_text(p).len()) as int),
{
    reveal_strlit("=");
    reveal_strlit("!=");
    reveal_strlit(" = ");
    reveal_strlit(" != ");
    let t = predicate_text(p);
    let cs = pre + t + rest;
    let i = pre.len() as int;
    let a0 = p.args[0];
    let a1 = p.args[1];
    let op: Seq<char> = if p.name == "!="@ { " != "@ } else { " = "@ };
    assert(t == term_text(a0) + op + term_text(a1));
    let rest1 = op + term_text(a1) + rest;
    assert(cs =~= pre + term_text(a0) + rest1);
    assert(rest1[0] == ' ');
    lemma_term_reads_back(pre, a0, true, rest1);
    let q = i + term_text(a0).len();
    let pre2 = pre + term_text(a0) + op;
    assert(cs =~= pre2 + term_text(a1) + rest);
    lemma_term_reads_back(pre2, a1, true, rest);
    assert(cs[q] == ' ');
    assert(lex_from(cs, q) == lex_from(cs, q + 1));
    let e1 = (pre2.len() + term_text(a1).len()) as int;
    assert(e1 == i + t.len());
    let opt = if p.name == "="@ { SpecToken::Eq } else { SpecToken::NotEq };
    if p.name == "!="@ {
        assert(p.name != "="@) by { assert(p.name.len() != "="@.len()); }
        assert(cs[q + 1] == '!' && cs[q + 2] == '=' && cs[q + 3] == ' ');
        assert(lex_from(cs, q + 1) == seq![SpecToken::NotEq] + lex_from(cs, q + 3));
        assert(lex_from(cs, q + 3) == lex_from(cs, q + 4));
        assert(pre2.len() == q + 4);
    } else {
        assert(cs[q + 1] == '=' && cs[q + 2] == ' ');
        assert(lex_from(cs, q + 1) == seq![SpecToken::Eq] + lex_from(cs, q + 2));
        assert(lex_from(cs, q + 2) == lex_from(cs, q + 3));
        assert(pre2.len() == q + 3);
    }
    assert(lex_from(cs, i) == seq![term_token(a0)] + (seq![opt] + (seq![term_token(a1)] + lex_from(cs, e1))));
    assert(pred_tokens(p) == seq![term_token(a0), opt, term_token(a1)]);
    assert(seq![term_token(a0)] + (seq![opt] + (seq![term_token(a1)] + lex_from(cs, e1)))
        =~= seq![term_token(a0), opt, term_token(a1)] + lex_from(cs, e1));
}

#[verifier::rlimit(60)]
proof fn lemma_not_reads_back(pre: Seq<char>, p: SpecPredicate, rest: Seq<char>)
    requires
        pred_shape(p),
        rest.len() > 0,
        separator(rest[0]),
        !is_comparison(p) && has_prefix(p.name, "not:"@),
    ensures
        lex_from(pre + predicate_text(p) + rest, pre.len() as int)
            == pred_tokens(p) + lex_from(pre + predicate_text(p) + rest, (pre.len() + predicate_text(p).len()) as int),
{
    reveal_strlit("not(");
    reveal_strlit("(");
    reveal_strlit("))");
    reveal_strlit("not");
    let t = predicate_text(p);
    let cs = pre + t + rest;
    let i = pre.len() as int;
    let inner = p.name.skip(4);
    let j = terms_text(p.args);
    assert(t == "not("@ + inner + "("@ + j + "))"@);
    let nt: Seq<char> = seq!['n', 'o', 't'];
    assert("not"@ =~= nt);
    assert(lexer_ident(nt)) by {
        assert(is_ident_char(nt[0]) && is_ident_char(nt[1]) && is_ident_char(nt[2]));
    }
    let rest0 = "("@ + inner + "("@ + j + "))"@ + rest;
    assert(cs =~= pre + nt + rest0);
    lemma_ident_token(pre, nt, rest0);
    assert(cs[i + 3] == '(');
    let pre1 = pre + nt + "("@;
    let rest1 = "("@ + j + "))"@ + rest;
    assert(cs =~= pre1 + inner + rest1);
    lemma_ident_token(pre1, inner, rest1);
    let q1 = (pre1.len() + inner.len()) as int;
    assert(cs[q1] == '(');
    let pre2 = pre1 + inner + "("@;
    let rest2 = "))"@ + rest;
    assert(cs =~= pre2 + j + rest2);
    lemma_terms_read_back(pre2, p.args, rest2);
    let q2 = (pre2.len() + j.len()) as int;
    assert(cs[q2] == ')' && cs[q2 + 1] == ')');
    assert(q2 + 2 == i + t.len());
    assert(lex_from(cs, i + 3) == seq![SpecToken::LParen] + lex_from(cs, i + 4));
    assert(lex_from(cs, q1) == seq![SpecToken::LParen] + lex_from(cs, q1 + 1));
    assert(lex_from(cs, q2) == seq![SpecToken::RParen] + lex_from(cs, q2 + 1));
    assert(lex_from(cs, q2 + 1) == seq![SpecToken::RParen] + lex_from(cs, q2 + 2));
    assert(pred_tokens(p) =~= seq![SpecToken::Ident(nt), SpecToken::LParen, SpecToken::Ident(inner), SpecToken::LParen]
        + terms_tokens(p.args) + seq![SpecToken::RParen, SpecToken::RParen]);
}

proof fn lemma_plain_pred_reads_back(pre: Seq<char>, p: SpecPredicate, rest: Seq<char>)
    requires
        pred_shape(p),
        rest.len() > 0,
        separator(rest[0]),
        !is_comparison(p) && !has_prefix(p.name, "not:"@),
    ensures
        lex_from(pre + predicate_text(p) + rest, pre.len() as int)
            == pred_tokens(p) + lex_from(pre + predicate_text(p) + rest, (pre.len() + predicate_text(p).len()) as int),
{
    reveal_strlit("(");
    reveal_strlit(")");
    let t = predicate_text(p);
    let cs = pre + t + rest;
    let i = pre.len() as int;
    let j = terms_text(p.args);
    assert(t == p.name + "("@ + j + ")"@);
    let rest0 = "("@ + j + ")"@ + rest;
    assert(cs =~= pre + p.name + rest0);
    lemma_ident_token(pre, p.name, rest0);
    let q0 = i + p.name.len();
    assert(cs[q0] == '(');
    let pre2 = pre + p.name + "("@;
    let rest2 = ")"@ + rest;
    assert(cs =~= pre2 + j + rest2);
    lemma_terms_read_back(pre2, p.args, rest2);
    let q2 = (pre2.len() + j.len()) as int;
    assert(cs[q2] == ')');
    assert(q2 + 1 == i + t.len());
    assert(lex_from(cs, q0) == seq![SpecToken::LParen] + lex_from(cs, q0 + 1));
    assert(lex_from(cs, q2) == seq![SpecToken::RParen] + lex_from(cs, q2 + 1));
    assert(pred_tokens(p) =~= seq![SpecToken::Ident(p.name), SpecToken::LParen] + terms_tokens(p.args) + seq![SpecToken::RParen]);
}

proof fn lemma_pred_reads_back(pre: Seq<char>, p: SpecPredicate, rest: Seq<char>)
    requires
        pred_shape(p),
        rest.len() > 0,
        separator(rest[0]),
    ensures
        lex_from(pre + predicate_text(p) + rest, pre.len() as int)
            == pred_tokens(p) + lex_from(pre + predicate_text(p) + rest, (pre.len() + predicate_text(p).len()) as int),
{
    if is_comparison(p) {
        lemma_comparison_reads_back(pre, p, rest);
    } else if has_prefix(p.name, "not:"@) {
        lemma_not_reads_back(pre, p, rest);
    } else {
        lemma_plain_pred_reads_back(pre, p, rest);
    }
}

/// The tokens of the first `n` body predicates of a written rule.
pub open spec fn body_toks(body: Seq<SpecPredicate>, n: int) -> Seq<SpecToken>
    decreases n,
{
    if n <= 0 {
        Seq::empty()
    } else {
        body_toks(body, n - 1) + pred_tokens(body[n - 1]) + seq![if n == body.len() { SpecToken::Dot } else { SpecToken::Comma }]
    }
}

/// The tokens of a written rule.
pub open spec fn rule_tokens(r: SpecRule) -> Seq<SpecToken> {
    pred_tokens(r.head) + seq![SpecToken::RuleSep] + body_toks(r.body, r.body.len() as int)
}

#[verifier::rlimit(80)]
proof fn lemma_body_reads_back(pre: Seq<char>, body: Seq<SpecPredicate>, n: int, rest: Seq<char>)
    requires
        0 <= n <= body.len(),
        forall|k: int| 0 <= k < body.len() ==> pred_shape(#[trigger] body[k]),
    ensures
        lex_from(pre + body_text(body, n) + rest, pre.len() as int)
            == body_toks(body, n) + lex_from(pre + body_text(body, n) + rest, (pre.len() + body_text(body, n).len()) as int),
    decreases n,
{
    if n == 0 {
        assert(body_text(body, 0) =~= Seq::<char>::empty());
        assert(body_toks(body, 0) =~= Seq::<SpecToken>::empty());
    } else {
        reveal_strlit("\n    ");
        reveal_strlit(".");
        reveal_strlit(",");
        let b = body[n - 1];
        assert(pred_shape(b));
        let sep: Seq<char> = if n == body.len() { "."@ } else { ","@ };
        let prev = body_text(body, n - 1);
        assert(body_text(body, n) == prev + "\n    "@ + predicate_text(b) + sep);
        let cs = pre + body_text(body, n) + rest;
        let rest1 = "\n    "@ + predicate_text(b) + sep + rest;
        assert(cs =~= pre + prev + rest1);
        lemma_body_reads_back(pre, body, n - 1, rest1);
        let q = (pre.len() + prev.len()) as int;
        assert(cs[q] == '\n' && cs[q + 1] == ' ' && cs[q + 2] == ' ' && cs[q + 3] == ' ' && cs[q + 4] == ' ');
        assert(lex_from(cs, q) == lex_from(cs, q + 1));
        assert(lex_from(cs, q + 1) == lex_from(cs, q + 2));
        assert(lex_from(cs, q + 2) == lex_from(cs, q + 3));
        assert(lex_from(cs, q + 3) == lex_from(cs, q + 4));
        assert(lex_from(cs, q + 4) == lex_from(cs, q + 5));
        let pre2 = pre + prev + "\n    "@;
        assert(cs =~= pre2 + predicate_text(b) + (sep + rest));
        lemma_pred_reads_back(pre2, b, sep + rest);
        let e = (pre2.len() + predicate_text(b).len()) as int;
        if n == body.len() {
            assert(cs[e] == '.');
            assert(lex_from(cs, e) == seq![SpecToken::Dot] + lex_from(cs, e + 1));
        } else {
            assert(cs[e] == ',');
            assert(lex_from(cs, e) == seq![SpecToken::Comma] + lex_from(cs, e + 1));
        }
        assert(e + 1 == pre.len() + body_text(body, n).len());
    }
}

proof fn lemma_rule_reads_back(pre: Seq<char>, r: SpecRule, rest: Seq<char>)
    requires
        pred_shape(r.head),
        forall|k: int| 0 <= k < r.body.len() ==> pred_shape(#[trigger] r.body[k]),
    ensures
        lex_from(pre + rule_text(r) + rest, pre.len() as int)
            == rule_tokens(r) + lex_from(pre + rule_text(r) + rest, (pre.len() + rule_text(r).len()) as int),
{
    reveal_strlit(" :-");
    let h = predicate_text(r.head);
    let bt = body_text(r.body, r.body.len() as int);
    assert(rule_text(r) == h + " :-"@ + bt);
    let cs = pre + rule_text(r) + rest;
    let rest1 = " :-"@ + bt + rest;
    assert(cs =~= pre + h + rest1);
    lemma_pred_reads_back(pre, r.head, rest1);
    let q = (pre.len() + h.len()) as int;
    assert(cs[q] == ' ' && cs[q + 1] == ':' && cs[q + 2] == '-');
    assert(lex_from(cs, q) == lex_from(cs, q + 1));
    assert(lex_from(cs, q + 1) == seq![SpecToken::RuleSep] + lex_from(cs, q + 3));
    let pre2 = pre + h + " :-"@;
    assert(cs =~= pre2 + bt + rest);
    lemma_body_reads_back(pre2, r.body, r.body.len() as int, rest);
}

proof fn lemma_terms_tokens_front(ts: Seq<SpecTerm>)
    requires
        ts.len() >= 2,
    ensures
        terms_tokens(ts) == seq![term_token(ts[0]), SpecToken::Comma] + terms_tokens(ts.skip(1)),
    decreases ts.len(),
{
    let d = ts.drop_last();
    let t = ts.skip(1);
    if ts.len() == 2 {
        assert(t =~= seq![ts[1]]);
        assert(d =~= seq![ts[0]]);
        assert(terms_tokens(d) == seq![term_token(d[0])]);
        assert(terms_tokens(t) == seq![term_token(t[0])]);
        assert(terms_tokens(ts) == terms_tokens(d) + seq![SpecToken::Comma, term_token(ts.last())]);
        assert(terms_tokens(ts) =~= seq![term_token(ts[0]), SpecToken::Comma] + terms_tokens(t));
    } else {
        lemma_terms_tokens_front(d);
        assert(d.skip(1) =~= t.drop_last());
        assert(t.last() == ts.last());
        assert(d[0] == ts[0]);
        assert(terms_tokens(t) == terms_tokens(t.drop_last()) + seq![SpecToken::Comma, term_token(t.last())]);
        assert(terms_tokens(ts) == terms_tokens(d) + seq![SpecToken::Comma, term_token(ts.last())]);
        assert(terms_tokens(ts) =~= seq![term_token(ts[0]), SpecToken::Comma] + terms_tokens(t));
    }
}

proof fn lemma_terms_tokens_kinds(ts: Seq<SpecTerm>, k: int)
    requires
        forall|m: int| 0 <= m < ts.len() ==> readable_term(#[trigger] ts[m], false),
        0 <= k < terms_tokens(ts).len(),
    ensures
        terms_tokens(ts)[k] is Comma || terms_tokens(ts)[k] is Ident || terms_tokens(ts)[k] is Str || terms_tokens(ts)[k] is Int,
    decreases ts.len(),
{
    assert(readable_term(ts[ts.len() - 1], false));
    if ts.len() >= 2 {
        let d = ts.drop_last();
        assert forall|m: int| 0 <= m < d.len() implies readable_term(#[trigger] d[m], false) by {
            assert(d[m] == ts[m]);
        }
        if k < terms_tokens(d).len() {
            lemma_terms_tokens_kinds(d, k);
        }
    } else {
        assert(readable_term(ts[0], false));
    }
}

/// One written term read back by the argument parser.
proof fn lemma_term_arg(ts: Seq<SpecToken>, j: int, rs: int, t: SpecTerm, w: nat)
    requires
        0 <= rs <= j < ts.len(),
        ts[j] == term_token(t),
        readable_term(t, false),
        is_anon_var(t) ==> t == SpecTerm::Var(anon_name(w)),
        wild_count(ts, rs, j) == w,
    ensures
        pred_args(ts, j, rs) == lift_terms(seq![t], pred_args(ts, j + 1, rs)),
        wild_count(ts, rs, j + 1) == w + anon_one(t),
{
    match t {
        SpecTerm::Var(v) => {
            if has_prefix(v, "_anon_"@) {
                assert(ts[j] == SpecToken::Ident(seq!['_']));
            } else {
                assert(v != seq!['_']);
                assert(ts[j] != SpecToken::Ident(seq!['_']));
            }
        },
        SpecTerm::Const(c) => {
            match c {
                SpecValue::Str(s) => {
                    assert(s != seq!['_']);
                },
                _ => {},
            }
            assert(ts[j] != SpecToken::Ident(seq!['_']));
        },
    }
}

proof fn lemma_pred_args_read_back(ts: Seq<SpecToken>, j: int, rs: int, args: Seq<SpecTerm>, w: nat)
    requires
        0 <= rs <= j,
        j + terms_tokens(args).len() < ts.len(),
        forall|k: int| 0 <= k < terms_tokens(args).len() ==> ts[j + k] == #[trigger] terms_tokens(args)[k],
        ts[j + terms_tokens(args).len()] is RParen,
        forall|m: int| 0 <= m < args.len() ==> readable_term(#[trigger] args[m], false),
        anon_from(args, w),
        wild_count(ts, rs, j) == w,
    ensures
        pred_args(ts, j, rs) == Ok::<(Seq<SpecTerm>, int), Seq<char>>((args, j + terms_tokens(args).len() + 1)),
        wild_count(ts, rs, j + terms_tokens(args).len() + 1) == w + anon_count(args),
    decreases args.len(),
{
    let l = terms_tokens(args).len() as int;
    if args.len() == 0 {
        assert(args =~= Seq::<SpecTerm>::empty());
        assert(ts[j] is RParen);
        assert(wild_count(ts, rs, j + 1) == wild_count(ts, rs, j) + 0);
    } else {
        let t = args[0];
        assert(readable_term(t, false));
        if args.len() == 1 {
            assert(terms_tokens(args) == seq![term_token(t)]);
            assert(terms_tokens(args)[0] == term_token(t));
            assert(ts[j + 0] == terms_tokens(args)[0]);
            lemma_term_arg(ts, j, rs, t, w);
            assert(ts[j + 1] is RParen);
            assert(pred_args(ts, j + 1, rs) == Ok::<(Seq<SpecTerm>, int), Seq<char>>((Seq::<SpecTerm>::empty(), j + 2)));
            assert(wild_count(ts, rs, j + 2) == wild_count(ts, rs, j + 1) + 0);
            assert(seq![t] + Seq::<SpecTerm>::empty() =~= args);
            assert(args.skip(1) =~= Seq::<SpecTerm>::empty());
            assert(anon_count(args) == anon_one(t) + anon_count(args.skip(1)));
        } else {
            let rest = args.skip(1);
            lemma_terms_tokens_front(args);
            assert(terms_tokens(args)[0] == term_token(t));
            assert(terms_tokens(args)[1] == SpecToken::Comma);
            assert(ts[j + 0] == terms_tokens(args)[0]);
            assert(ts[j + 1] == terms_tokens(args)[1]);
            lemma_term_arg(ts, j, rs, t, w);
            assert(ts[j + 1] is Comma);
            assert(wild_count(ts, rs, j + 2) == wild_count(ts, rs, j + 1) + 0);
            assert forall|m: int| 0 <= m < rest.len() implies readable_term(#[trigger] rest[m], false) by {
                assert(rest[m] == args[m + 1]);
            }
            assert forall|k: int| 0 <= k < terms_tokens(rest).len() implies ts[j + 2 + k] == #[trigger] terms_tokens(rest)[k] by {
                assert(terms_tokens(args)[k + 2] == terms_tokens(rest)[k]);
            }
            lemma_pred_args_read_back(ts, j + 2, rs, rest, w + anon_one(t));
            assert(pred_args(ts, j + 1, rs) == pred_args(ts, j + 2, rs));
            assert(seq![t] + rest =~= args);
        }
    }
}

/// Whether a rule reads back as itself once written: its head is no comparison, its body is
/// not empty, each predicate is readable, and its wildcards are numbered in order from 0.
pub open spec fn readable_rule(r: SpecRule) -> bool {
    &&& !is_comparison(r.head)
    &&& readable_pred(r.head, 0)
    &&& r.body.len() > 0
    &&& body_ok(r.body, pred_anon(r.head))
}

/// Whether the body predicates are readable, their wildcards numbered on from `w`.
pub open spec fn body_ok(body: Seq<SpecPredicate>, w: nat) -> bool
    decreases body.len(),
{
    if body.len() == 0 {
        true
    } else {
        readable_pred(body[0], w) && body_ok(body.skip(1), w + pred_anon(body[0]))
    }
}

proof fn lemma_plain_pred_at(ts: Seq<SpecToken>, j: int, rs: int, p: SpecPredicate, w: nat)
    requires
        !is_comparison(p),
        !has_prefix(p.name, "not:"@),
        readable_pred(p, w),
        0 <= rs <= j,
        j + pred_tokens(p).len() <= ts.len(),
        forall|k: int| 0 <= k < pred_tokens(p).len() ==> ts[j + k] == #[trigger] pred_tokens(p)[k],
        wild_count(ts, rs, j) == w,
    ensures
        pred_at(ts, j, rs) == Ok::<(SpecPredicate, int), Seq<char>>((p, j + pred_tokens(p).len())),
        wild_count(ts, rs, j + pred_tokens(p).len()) == w + pred_anon(p),
{
    reveal_strlit("not");
    let pt = pred_tokens(p);
    let tt = terms_tokens(p.args);
    let l = tt.len() as int;
    assert(pt == seq![SpecToken::Ident(p.name), SpecToken::LParen] + tt + seq![SpecToken::RParen]);
    assert(ts[j + 0] == pt[0]);
    assert(ts[j + 1] == pt[1]);
    assert(ts[j + (l + 2)] == pt[l + 2]);
    assert(ts[j] == SpecToken::Ident(p.name));
    assert(ts[j + 1] is LParen);
    assert(p.name != not_name()) by { assert(not_name() =~= "not"@); }
    assert(wild_count(ts, rs, j + 1) == wild_count(ts, rs, j) + 0);
    assert(wild_count(ts, rs, j + 2) == wild_count(ts, rs, j + 1) + 0);
    assert forall|k: int| 0 <= k < l implies ts[j + 2 + k] == #[trigger] tt[k] by {
        assert(pt[k + 2] == tt[k]);
    }
    lemma_pred_args_read_back(ts, j + 2, rs, p.args, w);
}

proof fn lemma_not_pred_at(ts: Seq<SpecToken>, j: int, rs: int, p: SpecPredicate, w: nat)
    requires
        !is_comparison(p),
        has_prefix(p.name, "not:"@),
        readable_pred(p, w),
        0 <= rs <= j,
        j + pred_tokens(p).len() <= ts.len(),
        forall|k: int| 0 <= k < pred_tokens(p).len() ==> ts[j + k] == #[trigger] pred_tokens(p)[k],
        wild_count(ts, rs, j) == w,
    ensures
        pred_at(ts, j, rs) == Ok::<(SpecPredicate, int), Seq<char>>((p, j + pred_tokens(p).len())),
        wild_count(ts, rs, j + pred_tokens(p).len()) == w + pred_anon(p),
{
    reveal_strlit("not");
    reveal_strlit("not:");
    reveal_strlit("=");
    reveal_strlit("!=");
    let inner = p.name.skip(4);
    let q = SpecPredicate { name: inner, args: p.args };
    let pt = pred_tokens(p);
    let tt = terms_tokens(p.args);
    let l = tt.len() as int;
    let nt: Seq<char> = seq!['n', 'o', 't'];
    assert("not"@ =~= nt);
    assert(pt == seq![SpecToken::Ident(nt), SpecToken::LParen, SpecToken::Ident(inner), SpecToken::LParen] + tt + seq![SpecToken::RParen, SpecToken::RParen]);
    assert(!is_comparison(q)) by {
        assert(is_ident_char(inner[0]));
        assert(inner != "="@ && inner != "!="@) by {
            if inner == "="@ { assert(inner[0] == '='); }
            if inner == "!="@ { assert(inner[0] == '!'); }
        }
    }
    assert(!has_prefix(inner, "not:"@)) by {
        if has_prefix(inner, "not:"@) {
            assert(inner.subrange(0, 4)[3] == ':');
            assert(is_ident_char(inner[3]));
        }
    }
    assert(readable_pred(q, w));
    let qt = pred_tokens(q);
    assert(qt == seq![SpecToken::Ident(inner), SpecToken::LParen] + tt + seq![SpecToken::RParen]);
    assert(ts[j + 0] == pt[0]);
    assert(ts[j + 1] == pt[1]);
    assert(ts[j] == SpecToken::Ident(nt));
    assert(ts[j + 1] is LParen);
    assert(nt == not_name());
    assert(nt != seq!['_']) by { assert(nt.len() != 1); }
    assert(wild_count(ts, rs, j + 1) == wild_count(ts, rs, j) + 0);
    assert(wild_count(ts, rs, j + 2) == wild_count(ts, rs, j + 1) + 0);
    assert forall|k: int| 0 <= k < qt.len() implies ts[j + 2 + k] == #[trigger] qt[k] by {
        assert(pt[k + 2] == qt[k]);
    }
    lemma_plain_pred_at(ts, j + 2, rs, q, w);
    let kq = j + 2 + qt.len();
    assert(ts[j + (l + 5)] == pt[l + 5]);
    assert(kq == j + l + 5);
    assert(ts[kq] is RParen);
    assert(wild_count(ts, rs, kq + 1) == wild_count(ts, rs, kq) + 0);
    assert(p.name =~= not_prefix() + inner) by {
        assert(not_prefix() =~= "not:"@);
        assert(p.name.subrange(0, 4) == "not:"@);
    }
}

proof fn lemma_operand(t: SpecTerm)
    requires
        readable_term(t, true),
    ensures
        operand_term(term_token(t)) == Some(t),
        term_token(t) != SpecToken::Ident(seq!['_']),
{
    match t {
        SpecTerm::Var(v) => {
            assert(v != seq!['_']);
        },
        SpecTerm::Const(c) => {
            match c {
                SpecValue::Str(s) => { assert(s != seq!['_']); },
                _ => {},
            }
        },
    }
}

proof fn lemma_comparison_pred_at(ts: Seq<SpecToken>, j: int, rs: int, p: SpecPredicate, w: nat)
    requires
        is_comparison(p),
        readable_pred(p, w),
        0 <= rs <= j,
        j + pred_tokens(p).len() <= ts.len(),
        forall|k: int| 0 <= k < pred_tokens(p).len() ==> ts[j + k] == #[trigger] pred_tokens(p)[k],
        wild_count(ts, rs, j) == w,
    ensures
        pred_at(ts, j, rs) == Ok::<(SpecPredicate, int), Seq<char>>((p, j + pred_tokens(p).len())),
        wild_count(ts, rs, j + pred_tokens(p).len()) == w + pred_anon(p),
{
    reveal_strlit("=");
    reveal_strlit("!=");
    let a0 = p.args[0];
    let a1 = p.args[1];
    let pt = pred_tokens(p);
    assert(ts[j + 0] == pt[0]);
    assert(ts[j + 1] == pt[1]);
    assert(ts[j + 2] == pt[2]);
    lemma_operand(a0);
    lemma_operand(a1);
    let v = a0->Var_0;
    assert(ts[j] == SpecToken::Ident(v));
    assert(eq_name() =~= "="@);
    assert(neq_name() =~= "!="@);
    if p.name == "="@ {
        assert(ts[j + 1] is Eq);
    } else {
        assert(ts[j + 1] is NotEq);
    }
    assert(p.args =~= seq![SpecTerm::Var(v), a1]);
    assert(wild_count(ts, rs, j + 1) == wild_count(ts, rs, j) + 0);
    assert(wild_count(ts, rs, j + 2) == wild_count(ts, rs, j + 1) + 0);
    assert(wild_count(ts, rs, j + 3) == wild_count(ts, rs, j + 2) + 0);
}

proof fn lemma_pred_at(ts: Seq<SpecToken>, j: int, rs: int, p: SpecPredicate, w: nat)
    requires
        readable_pred(p, w),
        0 <= rs <= j,
        j + pred_tokens(p).len() <= ts.len(),
        forall|k: int| 0 <= k < pred_tokens(p).len() ==> ts[j + k] == #[trigger] pred_tokens(p)[k],
        wild_count(ts, rs, j) == w,
    ensures
        pred_at(ts, j, rs) == Ok::<(SpecPredicate, int), Seq<char>>((p, j + pred_tokens(p).len())),
        wild_count(ts, rs, j + pred_tokens(p).len()) == w + pred_anon(p),
{
    if is_comparison(p) {
        lemma_comparison_pred_at(ts, j, rs, p, w);
    } else if has_prefix(p.name, "not:"@) {
        lemma_not_pred_at(ts, j, rs, p, w);
    } else {
        lemma_plain_pred_at(ts, j, rs, p, w);
    }
}

/// The tokens of written body predicates, read from the front.
pub open spec fn body_fwd(body: Seq<SpecPredicate>) -> Seq<SpecToken>
    decreases body.len(),
{
    if body.len() == 0 {
        Seq::empty()
    } else if body.len() == 1 {
        pred_tokens(body[0]) + seq![SpecToken::Dot]
    } else {
        pred_tokens(body[0]) + seq![SpecToken::Comma] + body_fwd(body.skip(1))
    }
}

proof fn lemma_body_toks_front(body: Seq<SpecPredicate>, n: int)
    requires
        1 <= n <= body.len(),
    ensures
        body_toks(body, n) == pred_tokens(body[0])
            + seq![if body.len() == 1 { SpecToken::Dot } else { SpecToken::Comma }]
            + body_toks(body.skip(1), n - 1),
    decreases n,
{
    let sep0 = if body.len() == 1 { SpecToken::Dot } else { SpecToken::Comma };
    if n == 1 {
        assert(body_toks(body, 0) =~= Seq::<SpecToken>::empty());
        assert(body_toks(body.skip(1), 0) =~= Seq::<SpecToken>::empty());
        assert(body_toks(body, 1) =~= pred_tokens(body[0]) + seq![sep0] + body_toks(body.skip(1), 0));
    } else {
        lemma_body_toks_front(body, n - 1);
        let t = body.skip(1);
        assert(t[n - 2] == body[n - 1]);
        assert(body_toks(t, n - 1) == body_toks(t, n - 2) + pred_tokens(t[n - 2])
            + seq![if n - 1 == t.len() { SpecToken::Dot } else { SpecToken::Comma }]);
        assert(body_toks(body, n) == body_toks(body, n - 1) + pred_tokens(body[n - 1])
            + seq![if n == body.len() { SpecToken::Dot } else { SpecToken::Comma }]);
        assert(body_toks(body, n) =~= pred_tokens(body[0]) + seq![sep0] + body_toks(body.skip(1), n - 1));
    }
}

proof fn lemma_body_toks_fwd(body: Seq<SpecPredicate>)
    ensures
        body_toks(body, body.len() as int) == body_fwd(body),
    decreases body.len(),
{
    if body.len() == 0 {
        assert(body_toks(body, 0) =~= Seq::<SpecToken>::empty());
    } else {
        lemma_body_toks_front(body, body.len() as int);
        lemma_body_toks_fwd(body.skip(1));
        if body.len() == 1 {
            assert(body_toks(body.skip(1), 0) =~= Seq::<SpecToken>::empty());
            assert(body_toks(body, 1) =~= pred_tokens(body[0]) + seq![SpecToken::Dot]);
        }
    }
}

proof fn lemma_pred_tokens_kinds(p: SpecPredicate, k: int)
    requires
        pred_shape(p),
        0 <= k < pred_tokens(p).len(),
    ensures
        !(pred_tokens(p)[k] is Dot),
        !(pred_tokens(p)[k] is RuleSep),
{
    let pt = pred_tokens(p);
    if is_comparison(p) {
        lemma_operand(p.args[0]);
        lemma_operand(p.args[1]);
        let a1 = p.args[1];
        match a1 {
            SpecTerm::Const(c) => { assert(readable_value(c)); },
            _ => {},
        }
    } else if has_prefix(p.name, "not:"@) {
        let tt = terms_tokens(p.args);
        if 4 <= k < 4 + tt.len() {
            assert(pt[k] == tt[k - 4]);
            lemma_terms_tokens_kinds(p.args, k - 4);
        }
    } else {
        let tt = terms_tokens(p.args);
        if 2 <= k < 2 + tt.len() {
            assert(pt[k] == tt[k - 2]);
            lemma_terms_tokens_kinds(p.args, k - 2);
        }
    }
}

proof fn lemma_body_fwd_kinds(body: Seq<SpecPredicate>, w: nat, k: int)
    requires
        body.len() > 0,
        body_ok(body, w),
        0 <= k < body_fwd(body).len(),
    ensures
        !(body_fwd(body)[k] is RuleSep),
        (body_fwd(body)[k] is Dot) <==> k == body_fwd(body).len() - 1,
    decreases body.len(),
{
    let pt = pred_tokens(body[0]);
    if k < pt.len() {
        lemma_pred_tokens_kinds(body[0], k);
    }
    if body.len() > 1 {
        let t = body.skip(1);
        lemma_body_fwd_nonempty(t);
        if k > pt.len() {
            assert(body_fwd(body)[k] == body_fwd(t)[k - pt.len() - 1]);
            lemma_body_fwd_kinds(t, w + pred_anon(body[0]), k - pt.len() - 1);
        }
    }
}

proof fn lemma_body_fwd_nonempty(body: Seq<SpecPredicate>)
    requires
        body.len() > 0,
    ensures
        body_fwd(body).len() > 0,
{
}

proof fn lemma_body_from(ts: Seq<SpecToken>, j: int, rs: int, body: Seq<SpecPredicate>, w: nat)
    requires
        body.len() > 0,
        body_ok(body, w),
        0 <= rs <= j,
        j + body_fwd(body).len() <= ts.len(),
        forall|k: int| 0 <= k < body_fwd(body).len() ==> ts[j + k] == #[trigger] body_fwd(body)[k],
        wild_count(ts, rs, j) == w,
    ensures
        body_from(ts, j, rs) == Ok::<(Seq<SpecPredicate>, int), Seq<char>>((body, j + body_fwd(body).len())),
    decreases body.len(),
{
    let b = body[0];
    let pt = pred_tokens(b);
    let bf = body_fwd(body);
    assert forall|k: int| 0 <= k < pt.len() implies ts[j + k] == #[trigger] pt[k] by {
        assert(bf[k] == pt[k]);
    }
    lemma_pred_at(ts, j, rs, b, w);
    let k = j + pt.len();
    assert(pt.len() > 0) by {
        if is_comparison(b) {} else if has_prefix(b.name, "not:"@) {} else {}
    }
    assert(ts[j + pt.len()] == bf[pt.len() as int]);
    if body.len() == 1 {
        assert(bf == pt + seq![SpecToken::Dot]);
        assert(ts[k] is Dot);
        assert(body =~= seq![b]);
    } else {
        let t = body.skip(1);
        assert(bf == pt + seq![SpecToken::Comma] + body_fwd(t));
        assert(ts[k] is Comma);
        assert(wild_count(ts, rs, k + 1) == wild_count(ts, rs, k) + 0);
        assert forall|m: int| 0 <= m < body_fwd(t).len() implies ts[k + 1 + m] == #[trigger] body_fwd(t)[m] by {
            assert(bf[pt.len() + 1 + m] == body_fwd(t)[m]);
        }
        lemma_body_from(ts, k + 1, rs, t, w + pred_anon(b));
        assert(seq![b] + t =~= body);
    }
}

proof fn lemma_rule_at(ts: Seq<SpecToken>, i: int, r: SpecRule)
    requires
        readable_rule(r),
        0 <= i,
        i + rule_tokens(r).len() <= ts.len(),
        forall|k: int| 0 <= k < rule_tokens(r).len() ==> ts[i + k] == #[trigger] rule_tokens(r)[k],
    ensures
        rule_at(ts, i) == Ok::<(SpecRule, int), Seq<char>>((r, i + rule_tokens(r).len())),
{
    let ht = pred_tokens(r.head);
    let rt = rule_tokens(r);
    lemma_body_toks_fwd(r.body);
    let bf = body_fwd(r.body);
    assert(rt == ht + seq![SpecToken::RuleSep] + bf);
    assert(wild_count(ts, i, i) == 0);
    assert forall|k: int| 0 <= k < ht.len() implies ts[i + k] == #[trigger] ht[k] by {
        assert(rt[k] == ht[k]);
    }
    lemma_pred_at(ts, i, i, r.head, 0);
    let j = i + ht.len();
    assert(ts[j] == rt[ht.len() as int]);
    assert(ts[j] is RuleSep);
    assert(wild_count(ts, i, j + 1) == wild_count(ts, i, j) + 0);
    assert forall|m: int| 0 <= m < bf.len() implies ts[j + 1 + m] == #[trigger] bf[m] by {
        assert(rt[ht.len() + 1 + m] == bf[m]);
    }
    lemma_body_from(ts, j + 1, i, r.body, pred_anon(r.head));
    assert(r == SpecRule { head: r.head, body: r.body });
}

/// The tokens of written rules, one after another.
pub open spec fn rules_tokens(rs: Seq<SpecRule>) -> Seq<SpecToken>
    decreases rs.len(),
{
    if rs.len() == 0 { Seq::empty() } else { rule_tokens(rs[0]) + rules_tokens(rs.skip(1)) }
}

proof fn lemma_rules_tokens_back(rs: Seq<SpecRule>)
    requires
        rs.len() > 0,
    ensures
        rules_tokens(rs) == rules_tokens(rs.drop_last()) + rule_tokens(rs.last()),
    decreases rs.len(),
{
    if rs.len() == 1 {
        assert(rs.skip(1) =~= Seq::<SpecRule>::empty());
        assert(rs.drop_last() =~= Seq::<SpecRule>::empty());
        assert(rules_tokens(rs) =~= rules_tokens(rs.drop_last()) + rule_tokens(rs.last()));
    } else {
        lemma_rules_tokens_back(rs.skip(1));
        assert(rs.skip(1).drop_last() =~= rs.drop_last().skip(1));
        assert(rs.skip(1).last() == rs.last());
        assert(rs.drop_last()[0] == rs[0]);
        assert(rules_tokens(rs) =~= rules_tokens(rs.drop_last()) + rule_tokens(rs.last()));
    }
}

/// The tokens of written rules read back, as a program, as no facts and those rules.
proof fn lemma_program_reads_rules(ts: Seq<SpecToken>, i: int, qs: Seq<SpecRule>)
    requires
        0 <= i,
        i + rules_tokens(qs).len() == ts.len(),
        forall|k: int| 0 <= k < rules_tokens(qs).len() ==> ts[i + k] == #[trigger] rules_tokens(qs)[k],
        forall|m: int| 0 <= m < qs.len() ==> readable_rule(#[trigger] qs[m]),
    ensures
        program_from(ts, i) == Ok::<(Seq<SpecFact>, Seq<SpecRule>), Seq<char>>((Seq::empty(), qs)),
    decreases qs.len(),
{
    if qs.len() == 0 {
        assert(qs =~= Seq::<SpecRule>::empty());
    } else {
        let r = qs[0];
        assert(readable_rule(r));
        let rt = rule_tokens(r);
        let ht = pred_tokens(r.head);
        lemma_body_toks_fwd(r.body);
        let bf = body_fwd(r.body);
        assert(rt == ht + seq![SpecToken::RuleSep] + bf);
        assert(rules_tokens(qs) == rt + rules_tokens(qs.skip(1)));
        assert forall|k: int| 0 <= k < rt.len() implies ts[i + k] == #[trigger] rt[k] by {
            assert(rules_tokens(qs)[k] == rt[k]);
        }
        lemma_body_fwd_nonempty(r.body);
        let d = i + rt.len() - 1;
        assert(ht.len() >= 2) by {
            if has_prefix(r.head.name, "not:"@) {} else {}
        }
        assert(ts[i + 0] == rt[0] && rt[0] == ht[0]);
        assert(ts[i + 1] == rt[1] && rt[1] == ht[1]);
        assert(ts[i] is Ident && ts[i + 1] is LParen) by {
            if has_prefix(r.head.name, "not:"@) {} else {}
        }
        assert forall|k: int| i <= k < d implies !(#[trigger] ts[k] is Dot) by {
            assert(ts[k] == rt[k - i]);
            if k - i < ht.len() {
                assert(rt[k - i] == ht[k - i]);
                lemma_pred_tokens_kinds(r.head, k - i);
            } else if k - i > ht.len() {
                assert(rt[k - i] == bf[k - i - ht.len() - 1]);
                lemma_body_fwd_kinds(r.body, pred_anon(r.head), k - i - ht.len() - 1);
            }
        }
        assert(ts[d] == rt[rt.len() - 1]);
        assert(rt[rt.len() - 1] == bf[bf.len() - 1]);
        lemma_body_fwd_kinds(r.body, pred_anon(r.head), bf.len() - 1);
        lemma_dot_from(ts, i, d);
        let sep = i + ht.len();
        assert(ts[sep] == rt[ht.len() as int]);
        assert(ts[sep] is RuleSep);
        assert(has_rule_sep(ts, i, d));
        lemma_rule_at(ts, i, r);
        let rest = qs.skip(1);
        assert forall|k: int| 0 <= k < rules_tokens(rest).len() implies ts[i + rt.len() + k] == #[trigger] rules_tokens(rest)[k] by {
            assert(rules_tokens(qs)[rt.len() + k] == rules_tokens(rest)[k]);
        }
        assert forall|m: int| 0 <= m < rest.len() implies readable_rule(#[trigger] rest[m]) by {
            assert(rest[m] == qs[m + 1]);
        }
        lemma_program_reads_rules(ts, i + rt.len(), rest);
        assert(seq![r] + rest =~= qs);
    }
}

/// The tokens of the first `k` items of a written program.
pub open spec fn prog_tokens(fs: Seq<SpecFact>, rs: Seq<SpecRule>, k: int) -> Seq<SpecToken> {
    if k <= fs.len() { facts_tokens(fs.take(k)) } else { facts_tokens(fs) + rules_tokens(rs.take(k - fs.len())) }
}

#[verifier::rlimit(60)]
proof fn lemma_prog_text_lex(fs: Seq<SpecFact>, rs: Seq<SpecRule>, k: int, rest: Seq<char>)
    requires
        0 <= k <= fs.len() + rs.len(),
        forall|m: int| 0 <= m < fs.len() ==> readable_fact(#[trigger] fs[m]),
        forall|m: int| 0 <= m < rs.len() ==> readable_rule(#[trigger] rs[m]),
    ensures
        items_text(fs, rs, program_items(fs.len(), rs.len()), k).1 == (k > fs.len()),
        lex_from(prog_text(fs, rs, k) + rest, 0)
            == prog_tokens(fs, rs, k) + lex_from(prog_text(fs, rs, k) + rest, prog_text(fs, rs, k).len() as int),
    decreases k,
{
    let items = program_items(fs.len(), rs.len());
    let nf = fs.len() as int;
    if k == 0 {
        assert(fs.take(0) =~= Seq::<SpecFact>::empty());
        assert(prog_text(fs, rs, 0) =~= Seq::<char>::empty());
    } else {
        reveal_strlit("\n");
        let prev = prog_text(fs, rs, k - 1);
        let cs = prog_text(fs, rs, k) + rest;
        if k <= nf {
            assert(items[k - 1] == crate::format::SpecItem::FactIndex((k - 1) as nat));
            let f = fs[k - 1];
            assert(prog_text(fs, rs, k) == prev + fact_text(f) + "\n"@);
            let rest1 = fact_text(f) + "\n"@ + rest;
            assert(cs =~= prev + rest1);
            lemma_prog_text_lex(fs, rs, k - 1, rest1);
            assert(cs =~= prev + fact_text(f) + ("\n"@ + rest));
            lemma_fact_reads_back(prev, f, "\n"@ + rest);
            let q = (prev.len() + fact_text(f).len()) as int;
            assert(cs[q] == '\n');
            assert(lex_from(cs, q) == lex_from(cs, q + 1));
            assert(fs.take(k).drop_last() =~= fs.take(k - 1));
            assert(fs.take(k).last() == f);
            lemma_facts_tokens_back(fs.take(k));
        } else {
            let ri = k - 1 - nf;
            assert(items[k - 1] == crate::format::SpecItem::RuleIndex(ri as nat));
            let r = rs[ri];
            assert(readable_rule(r));
            lemma_prog_text_lex(fs, rs, k - 1, Seq::empty());
            let last = items_text(fs, rs, items, k - 1).1;
            let gap: Seq<char> = if last { "\n"@ } else { Seq::empty() };
            assert(prog_text(fs, rs, k) == prev + gap + rule_text(r) + "\n"@);
            let rest1 = gap + rule_text(r) + "\n"@ + rest;
            assert(cs =~= prev + rest1);
            lemma_prog_text_lex(fs, rs, k - 1, rest1);
            let q0 = prev.len() as int;
            if last {
                assert(cs[q0] == '\n');
                assert(lex_from(cs, q0) == lex_from(cs, q0 + 1));
            }
            let pre2 = prev + gap;
            assert(cs =~= pre2 + rule_text(r) + ("\n"@ + rest));
            assert(forall|m: int| 0 <= m < r.body.len() ==> pred_shape(#[trigger] r.body[m])) by {
                lemma_body_ok_shapes(r.body, pred_anon(r.head));
            }
            lemma_rule_reads_back(pre2, r, "\n"@ + rest);
            let q = (pre2.len() + rule_text(r).len()) as int;
            assert(cs[q] == '\n');
            assert(lex_from(cs, q) == lex_from(cs, q + 1));
            let rt = rs.take(ri + 1);
            assert(rt.drop_last() =~= rs.take(ri));
            assert(rt.last() == r);
            lemma_rules_tokens_back(rt);
            if ri == 0 {
                assert(rs.take(0) =~= Seq::<SpecRule>::empty());
                assert(fs.take(nf) =~= fs);
                assert(prog_tokens(fs, rs, k - 1) == facts_tokens(fs));
                assert(rules_tokens(rs.take(0)) =~= Seq::<SpecToken>::empty());
            }
            assert(prog_tokens(fs, rs, k) =~= prog_tokens(fs, rs, k - 1) + rule_tokens(r));
        }
    }
}

proof fn lemma_body_ok_shapes(body: Seq<SpecPredicate>, w: nat)
    requires
        body_ok(body, w),
    ensures
        forall|m: int| 0 <= m < body.len() ==> pred_shape(#[trigger] body[m]),
    decreases body.len(),
{
    if body.len() > 0 {
        lemma_body_ok_shapes(body.skip(1), w + pred_anon(body[0]));
        assert forall|m: int| 0 <= m < body.len() implies pred_shape(#[trigger] body[m]) by {
            if m > 0 {
                assert(body[m] == body.skip(1)[m - 1]);
            }
        }
    }
}

/// Formatting a program never changes its meaning: parsing what `format_program` writes for
/// the facts `fs` and the rules `rs` gives back `fs` and `rs`, when each fact and rule is written
/// in a form that reads back (`readable_fact`, `readable_rule`): names and variables are
/// identifiers of the lexer, values are strings or integers, a string written without quotes
/// is an identifier of the lexer that names no variable, and each rule's wildcards are
/// numbered in order, as parsing numbers them.
pub proof fn law_formatted_program_reads_back(fs: Seq<SpecFact>, rs: Seq<SpecRule>)
    requires
        forall|m: int| 0 <= m < fs.len() ==> readable_fact(#[trigger] fs[m]),
        forall|m: int| 0 <= m < rs.len() ==> readable_rule(#[trigger] rs[m]),
    ensures
        program_spec(items_text(fs, rs, program_items(fs.len(), rs.len()), (fs.len() + rs.len()) as int).0)
            == Ok::<(Seq<SpecFact>, Seq<SpecRule>), Seq<char>>((fs, rs)),
{
    let n = (fs.len() + rs.len()) as int;
    let t = prog_text(fs, rs, n);
    lemma_prog_text_lex(fs, rs, n, Seq::empty());
    assert(t + Seq::<char>::empty() =~= t);
    let ts = tokenize_spec(t);
    assert(rs.take(rs.len() as int) =~= rs);
    assert(fs.take(fs.len() as int) =~= fs);
    if rs.len() == 0 {
        assert(rules_tokens(rs) =~= Seq::<SpecToken>::empty());
        assert(ts == facts_tokens(fs));
    } else {
        assert(ts == facts_tokens(fs) + rules_tokens(rs));
    }
    lemma_program_reads(ts, 0, fs, rs);
}

} // verus!
