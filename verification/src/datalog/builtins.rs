use vstd::prelude::*;
use crate::text::{nat_digits, u64_digits, string_from_chars, push_all, has_prefix, has_suffix, contains_seq, int_text, i64_value, string_chars, str_eq, str_starts_with, str_to_string, push_string, i64_to_string, parse_i64, string_from_range, starts_with_seq, ends_with_seq, contains_chars};
use crate::datalog::types::{value_debug, push_value_debug, Value, SpecValue, Term, SpecTerm, Predicate, SpecPredicate, terms_view, copy_string, copy_value, value_eq};
use crate::datalog::binding::{Binding, SBind, binds_view, term_value, get_value};
use crate::datalog::labels::{position_of, first_position};

verus! {

/// Why evaluating a query stopped.
#[derive(Debug)]
pub enum EvalError {
    /// The program is wrong: a built-in got the wrong number or kind of arguments, or an
    /// evaluation ran past its iteration limit.
    Invalid(String),
    /// `resolve` needs the output of running `tool` with `args` for `target`.
    NeedsResolution(String, String, Vec<String>),
    /// `matches_glob` needs the files that a pattern names on disk.
    NeedsGlob(String),
}

pub enum SpecEvalError {
    Invalid(Seq<char>),
    NeedsResolution(Seq<char>, Seq<char>, Seq<Seq<char>>),
    NeedsGlob(Seq<char>),
}

impl View for EvalError {
    type V = SpecEvalError;

    open spec fn view(&self) -> SpecEvalError {
        match self {
            EvalError::Invalid(m) => SpecEvalError::Invalid(m@),
            EvalError::NeedsResolution(t, tool, args) => SpecEvalError::NeedsResolution(t@, tool@, args@.map_values(|a: String| a@)),
            EvalError::NeedsGlob(p) => SpecEvalError::NeedsGlob(p@),
        }
    }
}

pub type SpecBinds = Result<Seq<SBind>, SpecEvalError>;

/// Whether an exec result of bindings agrees with a spec result.
pub open spec fn binds_res(r: Result<Vec<Binding>, EvalError>, s: SpecBinds) -> bool {
    match (r, s) {
        (Ok(bs), Ok(sbs)) => binds_view(bs@) == sbs,
        (Err(e), Err(se)) => e@ == se,
        _ => false,
    }
}

/// Whether a predicate name is a built-in, evaluated by the engine rather than looked up.
pub open spec fn special_name(name: Seq<char>) -> bool {
    has_prefix(name, "not:"@) || name == "="@ || name == "!="@ || name == "gt"@ || name == "lt"@
        || name == "concat"@ || name == "matches_glob"@ || name == "split"@ || name == "prefix"@
        || name == "suffix"@ || name == "substring"@ || name == "contains"@
        || name == "strip_prefix"@ || name == "strip_suffix"@ || name == "before_char"@
        || name == "after_char"@ || name == "resolve"@ || name == "count"@ || name == "min"@
        || name == "max"@ || name == "parse_int"@ || name == "to_string"@ || name == "add"@
        || name == "sub"@ || name == "mul"@ || name == "div"@ || name == "mod"@
        || name == "source_location"@
}

/// Whether a predicate name is a built-in, evaluated by the engine rather than looked up.
pub fn is_special_predicate(name: &str) -> (r: bool)
    ensures
        r == special_name(name@),
{
    str_starts_with(name, "not:") || str_eq(name, "=") || str_eq(name, "!=") || str_eq(name, "gt")
        || str_eq(name, "lt") || str_eq(name, "concat") || str_eq(name, "matches_glob")
        || str_eq(name, "split") || str_eq(name, "prefix") || str_eq(name, "suffix")
        || str_eq(name, "substring") || str_eq(name, "contains") || str_eq(name, "strip_prefix")
        || str_eq(name, "strip_suffix") || str_eq(name, "before_char") || str_eq(name, "after_char")
        || str_eq(name, "resolve") || str_eq(name, "count") || str_eq(name, "min")
        || str_eq(name, "max") || str_eq(name, "parse_int") || str_eq(name, "to_string")
        || str_eq(name, "add") || str_eq(name, "sub") || str_eq(name, "mul") || str_eq(name, "div")
        || str_eq(name, "mod") || str_eq(name, "source_location")
}

/// Applies a per-binding step to each binding in order, stopping at the first error.
pub open spec fn over_binds(f: spec_fn(SBind) -> SpecBinds, bs: Seq<SBind>) -> SpecBinds
    decreases bs.len(),
{
    if bs.len() == 0 {
        Ok(Seq::empty())
    } else {
        match over_binds(f, bs.drop_last()) {
            Err(e) => Err(e),
            Ok(acc) => match f(bs.last()) {
                Err(e) => Err(e),
                Ok(x) => Ok(acc + x),
            },
        }
    }
}

/// Gives the result term the value `v`: a bound variable or a constant must equal it; an
/// unbound variable is bound to it.
pub open spec fn bind_out(b: SBind, t: SpecTerm, v: SpecValue) -> Seq<SBind> {
    match t {
        SpecTerm::Var(x) => if b.contains_key(x) {
            if b[x] == v { seq![b] } else { Seq::empty() }
        } else {
            seq![b.insert(x, v)]
        },
        SpecTerm::Const(c) => if c == v { seq![b] } else { Seq::empty() },
    }
}

/// The number of arguments that a built-in evaluated per binding takes.
pub open spec fn pure_arity(name: Seq<char>) -> int {
    if name == "="@ || name == "!="@ || name == "gt"@ || name == "lt"@ {
        2
    } else if name == "concat"@ {
        3
    } else if name == "prefix"@ || name == "suffix"@ || name == "strip_suffix"@ || name == "contains"@ {
        2
    } else if name == "substring"@ {
        4
    } else if name == "parse_int"@ || name == "to_string"@ {
        2
    } else if name == "add"@ || name == "sub"@ || name == "mul"@ || name == "div"@ || name == "mod"@ {
        3
    } else if name == "strip_prefix"@ || name == "before_char"@ || name == "after_char"@ {
        3
    } else if name == "split"@ {
        4
    } else {
        0
    }
}

/// Whether a name is one of the built-ins that need nothing but the binding.
pub open spec fn pure_name(name: Seq<char>) -> bool {
    pure_arity(name) > 0
}

/// `a / b` rounded toward zero, as Rust's `/` on integers.
pub open spec fn trunc_div(a: int, b: int) -> int {
    let q = (if a < 0 { -a } else { a }) / (if b < 0 { -b } else { b });
    if (a < 0) != (b < 0) { -q } else { q }
}

/// The remainder of `a / b` rounded toward zero, as Rust's `%` on integers.
pub open spec fn trunc_rem(a: int, b: int) -> int {
    a - b * trunc_div(a, b)
}

pub open spec fn in_i64(v: int) -> bool {
    i64::MIN <= v <= i64::MAX
}

/// The value of integer arithmetic, or an error when it leaves the `i64` range.
pub open spec fn arith(name: Seq<char>, a: i64, b: i64) -> Option<Result<i64, ()>> {
    let v: int = if name == "add"@ {
        a + b
    } else if name == "sub"@ {
        a - b
    } else if name == "mul"@ {
        a * b
    } else if name == "div"@ {
        trunc_div(a as int, b as int)
    } else {
        trunc_rem(a as int, b as int)
    };
    if (name == "div"@ || name == "mod"@) && b == 0 {
        None
    } else if name == "mod"@ && a == i64::MIN && b == -1 {
        Some(Err(()))
    } else if in_i64(v) {
        Some(Ok(v as i64))
    } else {
        Some(Err(()))
    }
}

/// The pieces of `s` between the occurrences of `d`, as `str::split` gives them.
pub open spec fn split_text(s: Seq<char>, d: Seq<char>) -> Seq<Seq<char>>
    decreases s.len(),
{
    if d.len() == 0 {
        seq![Seq::<char>::empty()] + Seq::new(s.len(), |i: int| seq![s[i]]) + seq![Seq::<char>::empty()]
    } else {
        match position_of(s, d) {
            Some(p) => if 0 <= p && p + d.len() <= s.len() && d.len() > 0 {
                seq![s.take(p)] + split_text(s.skip(p + d.len()), d)
            } else {
                seq![s]
            },
            None => seq![s],
        }
    }
}

/// A string argument: a constant string, or a variable bound to a string.
pub open spec fn string_arg(t: SpecTerm, b: SBind) -> Option<Seq<char>> {
    match term_value(t, b) {
        Some(SpecValue::Str(s)) => match t {
            SpecTerm::Var(_) => Some(s),
            SpecTerm::Const(_) => Some(s),
        },
        _ => None,
    }
}

/// An integer argument: a constant integer, or a variable bound to an integer.
pub open spec fn int_arg(t: SpecTerm, b: SBind) -> Option<i64> {
    match term_value(t, b) {
        Some(SpecValue::Int(i)) => Some(i),
        _ => None,
    }
}

/// What `split(S, D, I, P)` gives for one binding.
pub open spec fn split_one(args: Seq<SpecTerm>, b: SBind) -> Seq<SBind> {
    match (string_arg(args[0], b), string_arg(args[1], b)) {
        (Some(s), Some(d)) => {
            let parts = split_text(s, d);
            match (int_arg(args[2], b), string_arg(args[3], b)) {
                (Some(i), Some(p)) => if 0 <= i < parts.len() && parts[i as int] == p { seq![b] } else { Seq::empty() },
                (Some(i), None) => match args[3] {
                    SpecTerm::Var(pv) => if 0 <= i < parts.len() {
                        seq![b.insert(pv, SpecValue::Str(parts[i as int]))]
                    } else {
                        Seq::empty()
                    },
                    _ => Seq::empty(),
                },
                (None, Some(p)) => match args[2] {
                    SpecTerm::Var(iv) => split_indices(parts, p, b, iv, parts.len() as int),
                    _ => Seq::empty(),
                },
                (None, None) => match (args[2], args[3]) {
                    (SpecTerm::Var(iv), SpecTerm::Var(pv)) => split_all(parts, b, iv, pv, parts.len() as int),
                    _ => Seq::empty(),
                },
            }
        },
        _ => Seq::empty(),
    }
}

/// A binding of `iv` to each index of `parts[..n]` holding `p`.
pub open spec fn split_indices(parts: Seq<Seq<char>>, p: Seq<char>, b: SBind, iv: Seq<char>, n: int) -> Seq<SBind>
    decreases n,
{
    if n <= 0 {
        Seq::empty()
    } else {
        let prev = split_indices(parts, p, b, iv, n - 1);
        if parts[n - 1] == p { prev.push(b.insert(iv, SpecValue::Int((n - 1) as i64))) } else { prev }
    }
}

/// A binding of `iv` and `pv` to each index of `parts[..n]` and its piece.
pub open spec fn split_all(parts: Seq<Seq<char>>, b: SBind, iv: Seq<char>, pv: Seq<char>, n: int) -> Seq<SBind>
    decreases n,
{
    if n <= 0 {
        Seq::empty()
    } else {
        split_all(parts, b, iv, pv, n - 1).push(
            b.insert(iv, SpecValue::Int((n - 1) as i64)).insert(pv, SpecValue::Str(parts[n - 1])),
        )
    }
}

/// The error of a built-in whose argument `what` is not bound.
pub open spec fn bound_msg(name: Seq<char>, what: Seq<char>) -> Seq<char> {
    "Error: "@ + name + " requires "@ + what + " to be bound"@
}

/// How the first and second arguments of a string built-in are called in its errors.
pub open spec fn string_arg_names(name: Seq<char>) -> (Seq<char>, Seq<char>) {
    if name == "strip_prefix"@ {
        ("first argument (string)"@, "second argument (prefix)"@)
    } else {
        ("first argument (string)"@, "second argument (char)"@)
    }
}

/// What a built-in that needs nothing but the binding gives for one binding.
pub open spec fn pure_one(name: Seq<char>, args: Seq<SpecTerm>, b: SBind) -> SpecBinds {
    let v1 = term_value(args[0], b);
    let v2 = term_value(args[1], b);
    if name == "="@ {
        match (args[0], args[1]) {
            (SpecTerm::Var(v), SpecTerm::Const(c)) => Ok(bind_out(b, args[0], c)),
            (SpecTerm::Const(c), SpecTerm::Var(v)) => Ok(bind_out(b, args[1], c)),
            (SpecTerm::Var(x), SpecTerm::Var(y)) => match (v1, v2) {
                (Some(a), Some(c)) => Ok(if a == c { seq![b] } else { Seq::empty() }),
                (Some(a), None) => Ok(seq![b.insert(y, a)]),
                (None, Some(c)) => Ok(seq![b.insert(x, c)]),
                (None, None) => Err(SpecEvalError::Invalid(
                    "Error: equality (=) with two unbound variables ("@ + x + ", "@ + y + ") is not supported"@,
                )),
            },
            (SpecTerm::Const(c1), SpecTerm::Const(c2)) => Ok(if c1 == c2 { seq![b] } else { Seq::empty() }),
        }
    } else if name == "!="@ {
        match (v1, v2) {
            (Some(SpecValue::Int(x)), Some(SpecValue::Int(y))) => Ok(if x != y { seq![b] } else { Seq::empty() }),
            (Some(SpecValue::Str(x)), Some(SpecValue::Str(y))) => Ok(if x != y { seq![b] } else { Seq::empty() }),
            (Some(a), Some(c)) => Err(SpecEvalError::Invalid(
                "Type error: != requires matching types, got "@ + value_debug(a) + " and "@ + value_debug(c),
            )),
            _ => Ok(Seq::empty()),
        }
    } else if name == "gt"@ || name == "lt"@ {
        match (v1, v2) {
            (Some(SpecValue::Int(x)), Some(SpecValue::Int(y))) =>
                Ok(if (name == "gt"@ && x > y) || (name == "lt"@ && x < y) { seq![b] } else { Seq::empty() }),
            (None, _) => Err(SpecEvalError::Invalid(bound_msg(name, "first argument"@))),
            (_, None) => Err(SpecEvalError::Invalid(bound_msg(name, "second argument"@))),
            (Some(a), Some(c)) => Err(SpecEvalError::Invalid(
                "Type error: "@ + name + " requires integer arguments, got "@ + value_debug(a) + " and "@ + value_debug(c),
            )),
        }
    } else if name == "concat"@ {
        match (v1, v2) {
            (Some(SpecValue::Str(x)), Some(SpecValue::Str(y))) => Ok(bind_out(b, args[2], SpecValue::Str(x + y))),
            (Some(a), Some(c)) => Err(SpecEvalError::Invalid(
                "Type error: concat requires string arguments, got "@ + value_debug(a) + " and "@ + value_debug(c),
            )),
            _ => Ok(Seq::empty()),
        }
    } else if name == "prefix"@ || name == "suffix"@ || name == "strip_suffix"@ || name == "contains"@ {
        match (v1, v2) {
            (Some(SpecValue::Str(x)), Some(SpecValue::Str(y))) => {
                let holds = if name == "prefix"@ {
                    has_prefix(x, y)
                } else if name == "contains"@ {
                    contains_seq(x, y)
                } else {
                    has_suffix(x, y)
                };
                Ok(if holds { seq![b] } else { Seq::empty() })
            },
            _ => Ok(Seq::empty()),
        }
    } else if name == "substring"@ {
        match (v1, v2, term_value(args[2], b)) {
            (Some(SpecValue::Str(s)), Some(SpecValue::Int(st)), Some(SpecValue::Int(en))) => {
                let a: int = if st < 0 { 0 } else { st as int };
                let z: int = if en < 0 { 0 } else { en as int };
                if a <= s.len() && z <= s.len() && a <= z {
                    Ok(bind_out(b, args[3], SpecValue::Str(s.subrange(a, z))))
                } else {
                    Ok(Seq::empty())
                }
            },
            _ => Ok(Seq::empty()),
        }
    } else if name == "parse_int"@ {
        match v1 {
            None => Err(SpecEvalError::Invalid("Error: parse_int requires first argument (string) to be bound"@)),
            Some(SpecValue::Str(s)) => match i64_value(s) {
                Some(n) => Ok(bind_out(b, args[1], SpecValue::Int(n))),
                None => Ok(Seq::empty()),
            },
            _ => Ok(Seq::empty()),
        }
    } else if name == "to_string"@ {
        match v1 {
            None => Err(SpecEvalError::Invalid("Error: to_string requires first argument (integer) to be bound"@)),
            Some(SpecValue::Int(n)) => Ok(bind_out(b, args[1], SpecValue::Str(int_text(n as int)))),
            _ => Ok(Seq::empty()),
        }
    } else if name == "add"@ || name == "sub"@ || name == "mul"@ || name == "div"@ || name == "mod"@ {
        match (v1, v2) {
            (None, _) => Err(SpecEvalError::Invalid(bound_msg(name, "first argument"@))),
            (_, None) => Err(SpecEvalError::Invalid(bound_msg(name, "second argument"@))),
            (Some(SpecValue::Int(x)), Some(SpecValue::Int(y))) => match arith(name, x, y) {
                None => Ok(Seq::empty()),
                Some(Err(_)) => Err(SpecEvalError::Invalid("Error: integer overflow in arithmetic"@)),
                Some(Ok(v)) => Ok(bind_out(b, args[2], SpecValue::Int(v))),
            },
            _ => Ok(Seq::empty()),
        }
    } else if name == "strip_prefix"@ || name == "before_char"@ || name == "after_char"@ {
        match (v1, v2) {
            (None, _) => Err(SpecEvalError::Invalid(bound_msg(name, string_arg_names(name).0))),
            (_, None) => Err(SpecEvalError::Invalid(bound_msg(name, string_arg_names(name).1))),
            (Some(SpecValue::Str(s)), Some(SpecValue::Str(p))) => {
                if name == "strip_prefix"@ {
                    if has_prefix(s, p) {
                        Ok(bind_out(b, args[2], SpecValue::Str(s.skip(p.len() as int))))
                    } else {
                        Ok(Seq::empty())
                    }
                } else {
                    match position_of(s, p) {
                        Some(k) => Ok(bind_out(b, args[2], SpecValue::Str(
                            if name == "before_char"@ { s.take(k) } else { s.skip(k + p.len()) },
                        ))),
                        None => Ok(Seq::empty()),
                    }
                }
            },
            _ => Ok(Seq::empty()),
        }
    } else {
        Ok(split_one(args, b))
    }
}

/// What a built-in that needs nothing but the binding gives for the bindings: an error
/// when it has the wrong number of arguments, else each binding's results in order.
pub open spec fn pure_builtin(p: SpecPredicate, bs: Seq<SBind>) -> SpecBinds {
    if p.args.len() != pure_arity(p.name) {
        Err(SpecEvalError::Invalid(arity_msg(arity_name(p.name), pure_arity(p.name) as nat, p.args.len())))
    } else {
        over_binds(|b: SBind| pure_one(p.name, p.args, b), bs)
    }
}

pub proof fn lemma_over_binds_push(f: spec_fn(SBind) -> SpecBinds, bs: Seq<SBind>, b: SBind)
    ensures
        over_binds(f, bs.push(b)) == match over_binds(f, bs) {
            Err(e) => Err(e),
            Ok(acc) => match f(b) {
                Err(e) => Err(e),
                Ok(x) => Ok(acc + x),
            },
        },
{
    assert(bs.push(b).drop_last() =~= bs);
}

/// The name under which a built-in reports a wrong number of arguments: `strip_suffix`
/// shares the check of `suffix`.
pub open spec fn arity_name(name: Seq<char>) -> Seq<char> {
    if name == "strip_suffix"@ { "suffix"@ } else { name }
}

fn arity_name_exec(name: &str) -> (r: &str)
    ensures
        r@ == arity_name(name@),
{
    if str_eq(name, "strip_suffix") { "suffix" } else { name }
}

/// The error for a built-in given `got` arguments where it takes exactly `n`.
pub open spec fn arity_msg(name: Seq<char>, n: nat, got: nat) -> Seq<char> {
    "Syntax error: "@ + name + " requires exactly "@ + nat_digits(n) + " arguments, got "@ + nat_digits(got)
}

pub(crate) fn arity_error(name: &str, n: usize, got: usize) -> (r: String)
    ensures
        r@ == arity_msg(name@, n as nat, got as nat),
{
    let mut m = str_to_string("Syntax error: ");
    push_all(&mut m, name);
    push_all(&mut m, " requires exactly ");
    push_string(&mut m, &string_from_chars(u64_digits(n as u64).as_slice()));
    push_all(&mut m, " arguments, got ");
    push_string(&mut m, &string_from_chars(u64_digits(got as u64).as_slice()));
    m
}

/// `prefix` followed by the two values as `{:?}` writes them, joined by ` and `.
fn pair_type_error(prefix: &str, a: &Value, c: &Value) -> (r: EvalError)
    ensures
        r@ == SpecEvalError::Invalid(prefix@ + value_debug(a@) + " and "@ + value_debug(c@)),
{
    let mut m = str_to_string(prefix);
    push_value_debug(&mut m, a);
    push_all(&mut m, " and ");
    push_value_debug(&mut m, c);
    EvalError::Invalid(m)
}

fn invalid(msg: &str) -> (r: EvalError)
    ensures
        r@ == SpecEvalError::Invalid(msg@),
{
    EvalError::Invalid(str_to_string(msg))
}

fn bound_error(name: &str, what: &str) -> (r: EvalError)
    ensures
        r@ == SpecEvalError::Invalid(bound_msg(name@, what@)),
{
    let mut m = str_to_string("Error: ");
    push_all(&mut m, name);
    push_all(&mut m, " requires ");
    push_all(&mut m, what);
    push_all(&mut m, " to be bound");
    EvalError::Invalid(m)
}

fn one(b: Binding) -> (r: Vec<Binding>)
    ensures
        binds_view(r@) == seq![b@],
{
    let mut r = Vec::new();
    r.push(b);
    assert(binds_view(r@) =~= seq![b@]);
    r
}

fn none() -> (r: Vec<Binding>)
    ensures
        binds_view(r@) == Seq::<SBind>::empty(),
{
    let r: Vec<Binding> = Vec::new();
    assert(binds_view(r@) =~= Seq::<SBind>::empty());
    r
}

/// Gives the result term the value `v` (see `bind_out`).
pub fn bind_result(b: Binding, t: &Term, v: Value) -> (r: Vec<Binding>)
    ensures
        binds_view(r@) == bind_out(b@, t@, v@),
{
    match t {
        Term::Variable(x) => {
            let found = match b.get(x.as_str()) {
                Some(existing) => Some(value_eq(existing, &v)),
                None => None,
            };
            match found {
                Some(true) => one(b),
                Some(false) => none(),
                None => {
                    let mut nb = b;
                    nb.set(copy_string(x), v);
                    one(nb)
                },
            }
        },
        Term::Constant(c) => {
            if value_eq(c, &v) {
                one(b)
            } else {
                none()
            }
        },
    }
}

fn str_arg(t: &Term, b: &Binding) -> (r: Option<String>)
    ensures
        match r {
            Some(s) => string_arg(t@, b@) == Some(s@),
            None => string_arg(t@, b@) is None,
        },
{
    match get_value(t, b) {
        Some(Value::String(s)) => Some(s),
        _ => None,
    }
}

fn integer_arg(t: &Term, b: &Binding) -> (r: Option<i64>)
    ensures
        r == int_arg(t@, b@),
{
    match get_value(t, b) {
        Some(Value::Integer(i)) => Some(i),
        _ => None,
    }
}

/// Rust's `/` and `%` on `i64` as exact integers, or `None` where the result leaves `i64`.
fn div_rem(a: i64, b: i64, want_rem: bool) -> (r: Option<i64>)
    requires
        b != 0,
    ensures
        match r {
            Some(v) => v as int == (if want_rem { trunc_rem(a as int, b as int) } else { trunc_div(a as int, b as int) }),
            None => !in_i64(if want_rem { trunc_rem(a as int, b as int) } else { trunc_div(a as int, b as int) }),
        },
{
    let x: i128 = a as i128;
    let y: i128 = b as i128;
    let ax: i128 = if x < 0 { -x } else { x };
    let ay: i128 = if y < 0 { -y } else { y };
    let q0: i128 = ax / ay;
    let r0: i128 = ax % ay;
    assert(ax == ay * q0 + r0 && 0 <= r0 < ay && 0 <= q0 <= ax) by (nonlinear_arith)
        requires
            ax >= 0,
            ay >= 1,
            q0 == ax / ay,
            r0 == ax % ay,
    ;
    let q: i128 = if (x < 0) != (y < 0) { -q0 } else { q0 };
    assert(q == trunc_div(a as int, b as int));
    if want_rem {
        let rem: i128 = if x < 0 { -r0 } else { r0 };
        assert(rem == x - y * q) by (nonlinear_arith)
            requires
                ax == ay * q0 + r0,
                x < 0 ==> ax == -x,
                x >= 0 ==> ax == x,
                y < 0 ==> ay == -y,
                y >= 0 ==> ay == y,
                (x < 0) != (y < 0) ==> q == -q0,
                (x < 0) == (y < 0) ==> q == q0,
                x < 0 ==> rem == -r0,
                x >= 0 ==> rem == r0,
        ;
        assert(rem == trunc_rem(a as int, b as int));
        Some(rem as i64)
    } else {
        if q < -9223372036854775808i128 || q > 9223372036854775807i128 {
            return None;
        }
        Some(q as i64)
    }
}

fn arith_exec(name: &str, a: i64, b: i64) -> (r: Option<Result<i64, ()>>)
    requires
        name@ == "add"@ || name@ == "sub"@ || name@ == "mul"@ || name@ == "div"@ || name@ == "mod"@,
    ensures
        r == arith(name@, a, b),
{
    let is_div = str_eq(name, "div");
    let is_mod = str_eq(name, "mod");
    if (is_div || is_mod) && b == 0 {
        return None;
    }
    if is_mod && a == i64::MIN && b == -1 {
        return Some(Err(()));
    }
    if str_eq(name, "add") {
        match a.checked_add(b) {
            Some(v) => Some(Ok(v)),
            None => Some(Err(())),
        }
    } else if str_eq(name, "sub") {
        match a.checked_sub(b) {
            Some(v) => Some(Ok(v)),
            None => Some(Err(())),
        }
    } else if str_eq(name, "mul") {
        match a.checked_mul(b) {
            Some(v) => Some(Ok(v)),
            None => Some(Err(())),
        }
    } else {
        let q = if is_div { div_rem(a, b, false) } else { div_rem(a, b, true) };
        match q {
            Some(v) => Some(Ok(v)),
            None => Some(Err(())),
        }
    }
}

/// The pieces of `s` between the occurrences of `d`.
pub fn split_string(s: &Vec<char>, d: &Vec<char>) -> (r: Vec<Vec<char>>)
    ensures
        r@.map_values(|p: Vec<char>| p@) == split_text(s@, d@),
{
    let mut out: Vec<Vec<char>> = Vec::new();
    if d.len() == 0 {
        out.push(Vec::new());
        let mut i: usize = 0;
        while i < s.len()
            invariant
                i <= s@.len(),
                out@.map_values(|p: Vec<char>| p@) == seq![Seq::<char>::empty()] + Seq::new(i as nat, |k: int| seq![s@[k]]),
            decreases s@.len() - i,
        {
            let mut piece: Vec<char> = Vec::new();
            piece.push(s[i]);
            let ghost prev = out@;
            out.push(piece);
            assert(out@.map_values(|p: Vec<char>| p@) =~= prev.map_values(|p: Vec<char>| p@).push(seq![s@[i as int]]));
            i = i + 1;
            assert(out@.map_values(|p: Vec<char>| p@) =~= seq![Seq::<char>::empty()] + Seq::new(i as nat, |k: int| seq![s@[k]]));
        }
        let ghost prev = out@;
        out.push(Vec::new());
        assert(out@.map_values(|p: Vec<char>| p@) =~= prev.map_values(|p: Vec<char>| p@).push(Seq::<char>::empty()));
        assert(out@.map_values(|p: Vec<char>| p@) =~= split_text(s@, d@));
        return out;
    }
    let mut start: usize = 0;
    assert(s@.skip(0) =~= s@);
    assert(out@.map_values(|p: Vec<char>| p@) =~= Seq::<Seq<char>>::empty());
    loop
        invariant
            start <= s@.len(),
            d@.len() > 0,
            split_text(s@, d@) == out@.map_values(|p: Vec<char>| p@) + split_text(s@.skip(start as int), d@),
        decreases s@.len() - start,
    {
        let rest: Vec<char> = slice_from(s, start);
        assert(rest@ == s@.skip(start as int));
        assert(rest@.len() == s@.len() - start);
        match first_position(rest.as_slice(), d.as_slice()) {
            Some(p) => {
                let mut piece: Vec<char> = Vec::new();
                let mut k: usize = 0;
                while k < p
                    invariant
                        k <= p,
                        p + d@.len() <= rest@.len(),
                        piece@ == rest@.take(k as int),
                    decreases p - k,
                {
                    piece.push(rest[k]);
                    k = k + 1;
                    assert(piece@ =~= rest@.take(k as int));
                }
                let ghost prev = out@;
                let ghost pv = piece@;
                out.push(piece);
                assert(rest@.skip(p + d@.len()) =~= s@.skip(start + p + d@.len()));
                assert(out@.map_values(|q: Vec<char>| q@) =~= prev.map_values(|q: Vec<char>| q@).push(pv));
                assert(split_text(s@, d@) =~= out@.map_values(|q: Vec<char>| q@) + split_text(s@.skip(start + p + d@.len()), d@));
                let rl = rest.len();
                let sl = s.len();
                assert(p + d@.len() <= rl);
                let adv: usize = p + d.len();
                assert(start + adv <= sl);
                start = start + adv;
            },
            None => {
                let ghost prev = out@;
                out.push(rest);
                assert(out@.map_values(|q: Vec<char>| q@) =~= prev.map_values(|q: Vec<char>| q@).push(s@.skip(start as int)));
                return out;
            },
        }
    }
}

fn slice_from(s: &Vec<char>, start: usize) -> (r: Vec<char>)
    requires
        start <= s@.len(),
    ensures
        r@ == s@.skip(start as int),
{
    let mut r: Vec<char> = Vec::new();
    let mut i: usize = start;
    while i < s.len()
        invariant
            start <= i <= s@.len(),
            r@ == s@.subrange(start as int, i as int),
        decreases s@.len() - i,
    {
        r.push(s[i]);
        i = i + 1;
        assert(r@ =~= s@.subrange(start as int, i as int));
    }
    assert(r@ =~= s@.skip(start as int));
    r
}

fn chars_string(cs: &Vec<char>) -> (r: String)
    ensures
        r@ == cs@,
{
    crate::text::string_from_chars(cs.as_slice())
}

fn split_binding(args: &Vec<Term>, b: Binding) -> (r: Vec<Binding>)
    requires
        args@.len() == 4,
    ensures
        binds_view(r@) == split_one(terms_view(args@), b@),
{
    let ghost av = terms_view(args@);
    assert(av[0] == args@[0]@ && av[1] == args@[1]@ && av[2] == args@[2]@ && av[3] == args@[3]@);
    let s = match str_arg(&args[0], &b) {
        Some(s) => s,
        None => {
            return none();
        },
    };
    let d = match str_arg(&args[1], &b) {
        Some(d) => d,
        None => {
            return none();
        },
    };
    let scs = string_chars(&s);
    let dcs = string_chars(&d);
    let parts = split_string(&scs, &dcs);
    let ghost pv = parts@.map_values(|p: Vec<char>| p@);
    let index = integer_arg(&args[2], &b);
    let part = str_arg(&args[3], &b);
    match (index, part) {
        (Some(i), Some(p)) => {
            if i >= 0 && (i as u64) < (parts.len() as u64) {
                let pc = string_chars(&p);
                assert(pv[i as int] == parts@[i as int]@);
                if crate::text::chars_eq(parts[i as usize].as_slice(), pc.as_slice()) {
                    one(b)
                } else {
                    none()
                }
            } else {
                none()
            }
        },
        (Some(i), None) => match &args[3] {
            Term::Variable(pvar) => {
                if i >= 0 && (i as u64) < (parts.len() as u64) {
                    assert(pv[i as int] == parts@[i as int]@);
                    let mut nb = b;
                    nb.set(copy_string(pvar), Value::String(chars_string(&parts[i as usize])));
                    one(nb)
                } else {
                    none()
                }
            },
            _ => none(),
        },
        (None, Some(p)) => match &args[2] {
            Term::Variable(ivar) => {
                let pc = string_chars(&p);
                let mut out: Vec<Binding> = Vec::new();
                let mut k: usize = 0;
                while k < parts.len()
                    invariant
                        k <= parts@.len(),
                        pv == parts@.map_values(|q: Vec<char>| q@),
                        pc@ == p@,
                        binds_view(out@) == split_indices(pv, p@, b@, ivar@, k as int),
                    decreases parts@.len() - k,
                {
                    assert(pv[k as int] == parts@[k as int]@);
                    if crate::text::chars_eq(parts[k].as_slice(), pc.as_slice()) {
                        let mut nb = b.copy();
                        nb.set(copy_string(ivar), Value::Integer(#[verifier::truncate] (k as i64)));
                        let ghost prev = out@;
                        out.push(nb);
                        assert(binds_view(out@) =~= binds_view(prev).push(nb@));
                    }
                    k = k + 1;
                }
                out
            },
            _ => none(),
        },
        (None, None) => match (&args[2], &args[3]) {
            (Term::Variable(ivar), Term::Variable(pvar)) => {
                let mut out: Vec<Binding> = Vec::new();
                let mut k: usize = 0;
                while k < parts.len()
                    invariant
                        k <= parts@.len(),
                        pv == parts@.map_values(|q: Vec<char>| q@),
                        binds_view(out@) == split_all(pv, b@, ivar@, pvar@, k as int),
                    decreases parts@.len() - k,
                {
                    assert(pv[k as int] == parts@[k as int]@);
                    let mut nb = b.copy();
                    nb.set(copy_string(ivar), Value::Integer(#[verifier::truncate] (k as i64)));
                    nb.set(copy_string(pvar), Value::String(chars_string(&parts[k])));
                    let ghost prev = out@;
                    out.push(nb);
                    assert(binds_view(out@) =~= binds_view(prev).push(nb@));
                    k = k + 1;
                }
                out
            },
            _ => none(),
        },
    }
}

/// What a built-in that needs nothing but the binding gives for one binding.
fn pure_binding(name: &str, args: &Vec<Term>, b: Binding) -> (r: Result<Vec<Binding>, EvalError>)
    requires
        pure_name(name@),
        args@.len() == pure_arity(name@),
    ensures
        binds_res(r, pure_one(name@, terms_view(args@), b@)),
{
    let ghost av = terms_view(args@);
    assert(av[0] == args@[0]@ && av[1] == args@[1]@);
    let v1 = get_value(&args[0], &b);
    let v2 = get_value(&args[1], &b);
    if str_eq(name, "=") {
        match (&args[0], &args[1]) {
            (Term::Variable(_), Term::Constant(c)) => Ok(bind_result(b, &args[0], copy_value(c))),
            (Term::Constant(c), Term::Variable(_)) => Ok(bind_result(b, &args[1], copy_value(c))),
            (Term::Variable(x), Term::Variable(y)) => match (v1, v2) {
                (Some(a), Some(c)) => Ok(if value_eq(&a, &c) { one(b) } else { none() }),
                (Some(a), None) => {
                    let mut nb = b;
                    nb.set(copy_string(y), a);
                    Ok(one(nb))
                },
                (None, Some(c)) => {
                    let mut nb = b;
                    nb.set(copy_string(x), c);
                    Ok(one(nb))
                },
                (None, None) => {
                    let mut m = str_to_string("Error: equality (=) with two unbound variables (");
                    push_string(&mut m, x);
                    push_all(&mut m, ", ");
                    push_string(&mut m, y);
                    push_all(&mut m, ") is not supported");
                    Err(EvalError::Invalid(m))
                },
            },
            (Term::Constant(c1), Term::Constant(c2)) => Ok(if value_eq(c1, c2) { one(b) } else { none() }),
        }
    } else if str_eq(name, "!=") {
        match (v1, v2) {
            (Some(Value::Integer(x)), Some(Value::Integer(y))) => Ok(if x != y { one(b) } else { none() }),
            (Some(Value::String(x)), Some(Value::String(y))) => {
                Ok(if !crate::datalog::types::string_eq(&x, &y) { one(b) } else { none() })
            },
            (Some(a), Some(c)) => Err(pair_type_error("Type error: != requires matching types, got ", &a, &c)),
            _ => Ok(none()),
        }
    } else if str_eq(name, "gt") || str_eq(name, "lt") {
        match (v1, v2) {
            (Some(Value::Integer(x)), Some(Value::Integer(y))) => {
                let holds = (str_eq(name, "gt") && x > y) || (str_eq(name, "lt") && x < y);
                Ok(if holds { one(b) } else { none() })
            },
            (None, _) => Err(bound_error(name, "first argument")),
            (_, None) => Err(bound_error(name, "second argument")),
            (Some(a), Some(c)) => {
                let mut m = str_to_string("Type error: ");
                push_all(&mut m, name);
                push_all(&mut m, " requires integer arguments, got ");
                Err(pair_type_error(m.as_str(), &a, &c))
            },
        }
    } else if str_eq(name, "concat") {
        assert(av[2] == args@[2]@);
        match (v1, v2) {
            (Some(Value::String(x)), Some(Value::String(y))) => {
                let mut s = x;
                push_string(&mut s, &y);
                Ok(bind_result(b, &args[2], Value::String(s)))
            },
            (Some(a), Some(c)) => Err(pair_type_error("Type error: concat requires string arguments, got ", &a, &c)),
            _ => Ok(none()),
        }
    } else if str_eq(name, "prefix") || str_eq(name, "suffix") || str_eq(name, "strip_suffix") || str_eq(name, "contains") {
        match (v1, v2) {
            (Some(Value::String(x)), Some(Value::String(y))) => {
                let xc = string_chars(&x);
                let yc = string_chars(&y);
                let holds = if str_eq(name, "prefix") {
                    starts_with_seq(xc.as_slice(), yc.as_slice())
                } else if str_eq(name, "contains") {
                    contains_chars(xc.as_slice(), yc.as_slice())
                } else {
                    ends_with_seq(xc.as_slice(), yc.as_slice())
                };
                Ok(if holds { one(b) } else { none() })
            },
            _ => Ok(none()),
        }
    } else if str_eq(name, "substring") {
        assert(av[2] == args@[2]@ && av[3] == args@[3]@);
        let v3 = get_value(&args[2], &b);
        match (v1, v2, v3) {
            (Some(Value::String(s)), Some(Value::Integer(st)), Some(Value::Integer(en))) => {
                let cs = string_chars(&s);
                let a: u64 = if st < 0 { 0 } else { st as u64 };
                let z: u64 = if en < 0 { 0 } else { en as u64 };
                if a <= cs.len() as u64 && z <= cs.len() as u64 && a <= z {
                    let piece = string_from_range(cs.as_slice(), a as usize, z as usize);
                    Ok(bind_result(b, &args[3], Value::String(piece)))
                } else {
                    Ok(none())
                }
            },
            _ => Ok(none()),
        }
    } else if str_eq(name, "parse_int") {
        match v1 {
            None => Err(invalid("Error: parse_int requires first argument (string) to be bound")),
            Some(Value::String(s)) => match parse_i64(s.as_str()) {
                Some(n) => Ok(bind_result(b, &args[1], Value::Integer(n))),
                None => Ok(none()),
            },
            _ => Ok(none()),
        }
    } else if str_eq(name, "to_string") {
        match v1 {
            None => Err(invalid("Error: to_string requires first argument (integer) to be bound")),
            Some(Value::Integer(n)) => Ok(bind_result(b, &args[1], Value::String(i64_to_string(n)))),
            _ => Ok(none()),
        }
    } else if str_eq(name, "add") || str_eq(name, "sub") || str_eq(name, "mul") || str_eq(name, "div") || str_eq(name, "mod") {
        assert(av[2] == args@[2]@);
        match (v1, v2) {
            (None, _) => Err(bound_error(name, "first argument")),
            (_, None) => Err(bound_error(name, "second argument")),
            (Some(Value::Integer(x)), Some(Value::Integer(y))) => match arith_exec(name, x, y) {
                None => Ok(none()),
                Some(Err(_)) => Err(invalid("Error: integer overflow in arithmetic")),
                Some(Ok(v)) => Ok(bind_result(b, &args[2], Value::Integer(v))),
            },
            _ => Ok(none()),
        }
    } else if str_eq(name, "strip_prefix") || str_eq(name, "before_char") || str_eq(name, "after_char") {
        assert(av[2] == args@[2]@);
        match (v1, v2) {
            (None, _) => Err(bound_error(name, "first argument (string)")),
            (_, None) => Err(bound_error(name, if str_eq(name, "strip_prefix") { "second argument (prefix)" } else { "second argument (char)" })),
            (Some(Value::String(s)), Some(Value::String(p))) => {
                let sc = string_chars(&s);
                let pc = string_chars(&p);
                if str_eq(name, "strip_prefix") {
                    if starts_with_seq(sc.as_slice(), pc.as_slice()) {
                        let rest = string_from_range(sc.as_slice(), pc.len(), sc.len());
                        assert(sc@.subrange(pc@.len() as int, sc@.len() as int) =~= s@.skip(p@.len() as int));
                        Ok(bind_result(b, &args[2], Value::String(rest)))
                    } else {
                        Ok(none())
                    }
                } else {
                    match first_position(sc.as_slice(), pc.as_slice()) {
                        Some(k) => {
                            let piece = if str_eq(name, "before_char") {
                                let t = string_from_range(sc.as_slice(), 0, k);
                                assert(sc@.subrange(0, k as int) =~= s@.take(k as int));
                                t
                            } else {
                                let t = string_from_range(sc.as_slice(), k + pc.len(), sc.len());
                                assert(sc@.subrange(k + pc@.len(), sc@.len() as int) =~= s@.skip(k + p@.len()));
                                t
                            };
                            Ok(bind_result(b, &args[2], Value::String(piece)))
                        },
                        None => Ok(none()),
                    }
                }
            },
            _ => Ok(none()),
        }
    } else {
        Ok(split_binding(args, b))
    }
}

fn pure_arity_exec(name: &str) -> (r: usize)
    ensures
        r == pure_arity(name@),
{
    if str_eq(name, "=") || str_eq(name, "!=") || str_eq(name, "gt") || str_eq(name, "lt") {
        2
    } else if str_eq(name, "concat") {
        3
    } else if str_eq(name, "prefix") || str_eq(name, "suffix") || str_eq(name, "strip_suffix") || str_eq(name, "contains") {
        2
    } else if str_eq(name, "substring") {
        4
    } else if str_eq(name, "parse_int") || str_eq(name, "to_string") {
        2
    } else if str_eq(name, "add") || str_eq(name, "sub") || str_eq(name, "mul") || str_eq(name, "div") || str_eq(name, "mod") {
        3
    } else if str_eq(name, "strip_prefix") || str_eq(name, "before_char") || str_eq(name, "after_char") {
        3
    } else if str_eq(name, "split") {
        4
    } else {
        0
    }
}

/// Whether a name is one of the built-ins that need nothing but the binding.
pub fn is_pure_builtin(name: &str) -> (r: bool)
    ensures
        r == pure_name(name@),
{
    pure_arity_exec(name) > 0
}

/// Evaluates a built-in that needs nothing but the binding over the bindings in order.
pub fn eval_pure_builtin(p: &Predicate, bindings: Vec<Binding>) -> (r: Result<Vec<Binding>, EvalError>)
    requires
        pure_name(p.name@),
    ensures
        binds_res(r, pure_builtin(p@, binds_view(bindings@))),
{
    let arity = pure_arity_exec(p.name.as_str());
    if p.args.len() != arity {
        return Err(EvalError::Invalid(arity_error(arity_name_exec(p.name.as_str()), arity, p.args.len())));
    }
    let ghost f = |b: SBind| pure_one(p@.name, p@.args, b);
    let ghost all = binds_view(bindings@);
    let mut out: Vec<Binding> = Vec::new();
    let mut i: usize = 0;
    assert(all.take(0) =~= Seq::<SBind>::empty());
    assert(binds_view(out@) =~= Seq::<SBind>::empty());
    while i < bindings.len()
        invariant
            i <= bindings@.len(),
            all == binds_view(bindings@),
            p.args@.len() == pure_arity(p.name@),
            pure_name(p.name@),
            f == (|b: SBind| pure_one(p@.name, p@.args, b)),
            over_binds(f, all.take(i as int)) == Ok::<Seq<SBind>, SpecEvalError>(binds_view(out@)),
        decreases bindings@.len() - i,
    {
        let b = bindings[i].copy();
        proof { lemma_over_binds_push(f, all.take(i as int), b@); }
        assert(all.take(i + 1) =~= all.take(i as int).push(b@));
        match pure_binding(p.name.as_str(), &p.args, b) {
            Ok(mut more) => {
                let ghost prev = binds_view(out@);
                let ghost add = binds_view(more@);
                out.append(&mut more);
                assert(binds_view(out@) =~= prev + add);
            },
            Err(e) => {
                proof { lemma_over_binds_err(f, all, i as int + 1); }
                return Err(e);
            },
        }
        i = i + 1;
    }
    assert(all.take(i as int) =~= all);
    Ok(out)
}

/// Once a prefix gives an error, the whole sequence gives that error.
pub proof fn lemma_over_binds_err(f: spec_fn(SBind) -> SpecBinds, bs: Seq<SBind>, n: int)
    requires
        0 <= n <= bs.len(),
        over_binds(f, bs.take(n)) is Err,
    ensures
        over_binds(f, bs) == over_binds(f, bs.take(n)),
    decreases bs.len() - n,
{
    if n < bs.len() {
        assert(bs.take(n + 1).drop_last() =~= bs.take(n));
        lemma_over_binds_err(f, bs, n + 1);
    } else {
        assert(bs.take(n) =~= bs);
    }
}

/// Whether both arguments of a comparison have integer values under `b`.
pub open spec fn int_args(args: Seq<SpecTerm>, b: SBind) -> bool {
    term_value(args[0], b) matches Some(SpecValue::Int(_)) && term_value(args[1], b) matches Some(SpecValue::Int(_))
}

/// Whether `gt` (first greater than second) or `lt` (first less than second) holds of the
/// integer values of the arguments under `b`.
pub open spec fn compares(name: Seq<char>, args: Seq<SpecTerm>, b: SBind) -> bool {
    let x = term_value(args[0], b)->Some_0->Int_0;
    let y = term_value(args[1], b)->Some_0->Int_0;
    if name == "gt"@ { x > y } else { x < y }
}

/// `gt(a, b)` keeps a binding exactly when `a > b`, and `lt(a, b)` exactly when `a < b`;
/// a binding that fails is dropped, and none is changed.
pub proof fn law_comparison_keeps_exactly(name: Seq<char>, args: Seq<SpecTerm>, b: SBind, x: i64, y: i64)
    requires
        name == "gt"@ || name == "lt"@,
        args.len() == 2,
        term_value(args[0], b) == Some(SpecValue::Int(x)),
        term_value(args[1], b) == Some(SpecValue::Int(y)),
    ensures
        pure_one(name, args, b) matches Ok(r) && r.len() <= 1 && (r.len() == 1 ==> r[0] == b)
            && (r.len() == 1 <==> (if name == "gt"@ { x > y } else { x < y })),
{
    reveal_strlit("gt");
    reveal_strlit("lt");
    reveal_strlit("=");
    reveal_strlit("!=");
    reveal_strlit("concat");
    assert(name != "="@ && name != "!="@ && name != "concat"@) by {
        assert(name.len() == 2);
        if name == "!="@ { assert(name[0] == '!'); }
    }
    assert("gt"@ != "lt"@) by { assert("gt"@[0] != "lt"@[0]); }
    assert(pure_one(name, args, b) == Ok::<Seq<SBind>, SpecEvalError>(
        if (name == "gt"@ && x > y) || (name == "lt"@ && x < y) { seq![b] } else { Seq::empty() }));
}

/// Over bindings whose arguments are integers, `gt` and `lt` keep, in order, exactly the
/// bindings under which the comparison holds.
pub proof fn law_comparison_filters(p: SpecPredicate, bs: Seq<SBind>)
    requires
        p.name == "gt"@ || p.name == "lt"@,
        p.args.len() == 2,
        forall|i: int| 0 <= i < bs.len() ==> int_args(p.args, #[trigger] bs[i]),
    ensures
        pure_builtin(p, bs) == Ok::<Seq<SBind>, SpecEvalError>(bs.filter(|b: SBind| compares(p.name, p.args, b))),
    decreases bs.len(),
{
    reveal_strlit("gt");
    reveal_strlit("lt");
    reveal_with_fuel(Seq::filter, 1);
    assert(pure_arity(p.name) == 2);
    if bs.len() == 0 {
        assert(bs.filter(|b: SBind| compares(p.name, p.args, b)) =~= Seq::<SBind>::empty());
    } else {
        let d = bs.drop_last();
        let b = bs.last();
        assert forall|i: int| 0 <= i < d.len() implies int_args(p.args, #[trigger] d[i]) by {
            assert(d[i] == bs[i]);
        }
        law_comparison_filters(p, d);
        assert(int_args(p.args, bs[bs.len() - 1]));
        let x = term_value(p.args[0], b)->Some_0->Int_0;
        let y = term_value(p.args[1], b)->Some_0->Int_0;
        law_comparison_keeps_exactly(p.name, p.args, b, x, y);
        let f = |b: SBind| pure_one(p.name, p.args, b);
        lemma_over_binds_push(f, d, b);
        assert(bs =~= d.push(b));
        let r = pure_one(p.name, p.args, b)->Ok_0;
        if compares(p.name, p.args, b) {
            assert(r =~= seq![b]);
        } else {
            assert(r =~= Seq::<SBind>::empty());
        }
        let fd = d.filter(|b: SBind| compares(p.name, p.args, b));
        assert(bs.filter(|b: SBind| compares(p.name, p.args, b)) == if compares(p.name, p.args, b) { fd.push(b) } else { fd });
        assert(fd + r =~= (if compares(p.name, p.args, b) { fd.push(b) } else { fd }));
    }
}

} // verus!
