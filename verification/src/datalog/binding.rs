use vstd::prelude::*;
use crate::text::{has_prefix, str_eq, str_starts_with};
use crate::datalog::types::{Value, SpecValue, Term, SpecTerm, values_view, terms_view, copy_string, copy_value, value_eq};
use crate::datalog::locations::{keys_distinct, has_key, assoc_map, lemma_assoc_index, lemma_assoc_push, lemma_assoc_update};

verus! {

/// The model of a binding: the value of each bound variable.
pub type SBind = Map<Seq<char>, SpecValue>;

/// Values given to variables while a rule body is matched.
pub struct Binding {
    entries: Vec<(String, Value)>,
}

pub open spec fn bind_entry_view(e: (String, Value)) -> (Seq<char>, SpecValue) {
    (e.0@, e.1@)
}

impl Binding {
    pub closed spec fn entries_view(&self) -> Seq<(Seq<char>, SpecValue)> {
        self.entries@.map_values(|e: (String, Value)| bind_entry_view(e))
    }

    #[verifier::type_invariant]
    closed spec fn inv(&self) -> bool {
        keys_distinct(self.entries_view())
    }

    /// The value of each bound variable.
    pub closed spec fn view(&self) -> SBind {
        assoc_map(self.entries_view())
    }

    /// A binding of no variable.
    pub fn new() -> (r: Self)
        ensures
            r@ == Map::<Seq<char>, SpecValue>::empty(),
    {
        let r = Binding { entries: Vec::new() };
        assert(r.entries_view() =~= Seq::<(Seq<char>, SpecValue)>::empty());
        assert(r@ =~= Map::<Seq<char>, SpecValue>::empty());
        r
    }

    fn index_of(&self, key: &str) -> (r: Option<usize>)
        ensures
            match r {
                Some(i) => i < self.entries_view().len() && self.entries_view()[i as int].0 == key@,
                None => !has_key(self.entries_view(), key@),
            },
    {
        let mut i: usize = 0;
        while i < self.entries.len()
            invariant
                i <= self.entries@.len(),
                forall|j: int| 0 <= j < i ==> self.entries_view()[j].0 != key@,
            decreases self.entries@.len() - i,
        {
            if str_eq(self.entries[i].0.as_str(), key) {
                return Some(i);
            }
            i = i + 1;
        }
        None
    }

    /// The value of `key`, if it is bound.
    pub fn get(&self, key: &str) -> (r: Option<&Value>)
        ensures
            match r {
                Some(v) => self@.contains_key(key@) && self@[key@] == v@,
                None => !self@.contains_key(key@),
            },
    {
        proof { use_type_invariant(self); }
        match self.index_of(key) {
            Some(i) => {
                proof { lemma_assoc_index(self.entries_view(), i as int); }
                Some(&self.entries[i].1)
            },
            None => None,
        }
    }

    /// Binds `key` to `v`, replacing its value if it was bound.
    pub fn set(&mut self, key: String, v: Value)
        ensures
            final(self)@ == old(self)@.insert(key@, v@),
    {
        proof { use_type_invariant(&*self); }
        let ghost old_view = self.entries_view();
        let pos = self.index_of(key.as_str());
        let mut entries: Vec<(String, Value)> = Vec::new();
        std::mem::swap(&mut entries, &mut self.entries);
        let ghost kv = key@;
        let ghost vv = v@;
        match pos {
            Some(i) => {
                proof { lemma_assoc_update(old_view, i as int, vv); }
                entries.set(i, (key, v));
                assert(entries@.map_values(|e: (String, Value)| bind_entry_view(e)) =~= old_view.update(i as int, (kv, vv)));
            },
            None => {
                proof { lemma_assoc_push(old_view, kv, vv); }
                entries.push((key, v));
                assert(entries@.map_values(|e: (String, Value)| bind_entry_view(e)) =~= old_view.push((kv, vv)));
            },
        }
        self.entries = entries;
    }

    /// A copy of the binding.
    pub fn copy(&self) -> (r: Binding)
        ensures
            r@ == self@,
    {
        proof { use_type_invariant(self); }
        let mut es: Vec<(String, Value)> = Vec::new();
        let mut i: usize = 0;
        while i < self.entries.len()
            invariant
                i <= self.entries@.len(),
                es@.map_values(|e: (String, Value)| bind_entry_view(e)) == self.entries_view().take(i as int),
            decreases self.entries@.len() - i,
        {
            let e = &self.entries[i];
            let item = (copy_string(&e.0), copy_value(&e.1));
            assert(bind_entry_view(item) == self.entries_view()[i as int]);
            let ghost before = es@;
            es.push(item);
            assert(es@.map_values(|e: (String, Value)| bind_entry_view(e)) =~= before.map_values(|e: (String, Value)| bind_entry_view(e)).push(bind_entry_view(item)));
            i = i + 1;
            assert(es@.map_values(|e: (String, Value)| bind_entry_view(e)) =~= self.entries_view().take(i as int));
        }
        assert(self.entries_view().take(i as int) =~= self.entries_view());
        Binding { entries: es }
    }
}

/// The views of a sequence of bindings.
pub open spec fn binds_view(bs: Seq<Binding>) -> Seq<SBind> {
    bs.map_values(|b: Binding| b@)
}

/// The value a term has under a binding: a constant's own value, a bound variable's value.
pub open spec fn term_value(t: SpecTerm, b: SBind) -> Option<SpecValue> {
    match t {
        SpecTerm::Var(v) => if b.contains_key(v) { Some(b[v]) } else { None },
        SpecTerm::Const(c) => Some(c),
    }
}

/// Whether a variable name is one of the anonymous `_` variables.
pub open spec fn is_anon(v: Seq<char>) -> bool {
    has_prefix(v, "_anon_"@)
}

/// Matching `pattern[i..]` against `values[i..]` under `m`: a variable that is bound must
/// meet its value and one that is not is bound to it; a constant must equal it. Positions
/// past the values may only hold anonymous variables.
pub open spec fn extend_from(m: SBind, pattern: Seq<SpecTerm>, values: Seq<SpecValue>, i: int) -> Option<SBind>
    decreases pattern.len() - i,
{
    if i < 0 || i >= pattern.len() {
        Some(m)
    } else if i >= values.len() {
        match pattern[i] {
            SpecTerm::Var(v) => if is_anon(v) { extend_from(m, pattern, values, i + 1) } else { None },
            _ => None,
        }
    } else {
        match pattern[i] {
            SpecTerm::Var(v) => {
                if m.contains_key(v) {
                    if m[v] == values[i] { extend_from(m, pattern, values, i + 1) } else { None }
                } else {
                    extend_from(m.insert(v, values[i]), pattern, values, i + 1)
                }
            },
            SpecTerm::Const(c) => if c == values[i] { extend_from(m, pattern, values, i + 1) } else { None },
        }
    }
}

/// The binding that matching a pattern against a fact's values gives, if they match.
pub open spec fn extend(b: SBind, pattern: Seq<SpecTerm>, values: Seq<SpecValue>) -> Option<SBind> {
    if pattern.len() < values.len() {
        None
    } else {
        extend_from(b, pattern, values, 0)
    }
}

/// The head's values under a binding; an unbound variable gives the string `?`.
pub open spec fn project(head: Seq<SpecTerm>, b: SBind) -> Seq<SpecValue> {
    head.map_values(|t: SpecTerm| match t {
        SpecTerm::Var(v) => if b.contains_key(v) { b[v] } else { SpecValue::Str("?"@) },
        SpecTerm::Const(c) => c,
    })
}

/// The value of a term under a binding.
pub fn get_value(t: &Term, b: &Binding) -> (r: Option<Value>)
    ensures
        match r {
            Some(v) => term_value(t@, b@) == Some(v@),
            None => term_value(t@, b@) is None,
        },
{
    match t {
        Term::Variable(v) => match b.get(v.as_str()) {
            Some(x) => Some(copy_value(x)),
            None => None,
        },
        Term::Constant(c) => Some(copy_value(c)),
    }
}

/// Matches a pattern against a fact's values, extending the binding.
pub fn try_extend_binding(existing: &Binding, pattern: &Vec<Term>, values: &Vec<Value>) -> (r: Option<Binding>)
    ensures
        match (r, extend(existing@, terms_view(pattern@), values_view(values@))) {
            (Some(b), Some(sb)) => b@ == sb,
            (None, None) => true,
            _ => false,
        },
{
    let ghost pv = terms_view(pattern@);
    let ghost vv = values_view(values@);
    if pattern.len() < values.len() {
        return None;
    }
    let mut b = existing.copy();
    let mut i: usize = 0;
    while i < pattern.len()
        invariant
            i <= pattern@.len(),
            pv == terms_view(pattern@),
            vv == values_view(values@),
            extend_from(existing@, pv, vv, 0) == extend_from(b@, pv, vv, i as int),
        decreases pattern@.len() - i,
    {
        assert(pv[i as int] == pattern@[i as int]@);
        if i >= values.len() {
            match &pattern[i] {
                Term::Variable(v) => {
                    if !str_starts_with(v.as_str(), "_anon_") {
                        return None;
                    }
                },
                _ => {
                    return None;
                },
            }
        } else {
            assert(vv[i as int] == values@[i as int]@);
            match &pattern[i] {
                Term::Variable(v) => {
                    match b.get(v.as_str()) {
                        Some(x) => {
                            if !value_eq(x, &values[i]) {
                                return None;
                            }
                        },
                        None => {
                            b.set(copy_string(v), copy_value(&values[i]));
                        },
                    }
                },
                Term::Constant(c) => {
                    if !value_eq(c, &values[i]) {
                        return None;
                    }
                },
            }
        }
        i = i + 1;
    }
    Some(b)
}

/// The head's values under a binding; an unbound variable gives the string `?`.
pub fn project_to_head(head: &Vec<Term>, b: &Binding) -> (r: Vec<Value>)
    ensures
        values_view(r@) == project(terms_view(head@), b@),
{
    let ghost hv = terms_view(head@);
    let mut out: Vec<Value> = Vec::new();
    let mut i: usize = 0;
    while i < head.len()
        invariant
            i <= head@.len(),
            hv == terms_view(head@),
            values_view(out@) == project(hv.take(i as int), b@),
        decreases head@.len() - i,
    {
        let v = match &head[i] {
            Term::Variable(x) => match b.get(x.as_str()) {
                Some(val) => copy_value(val),
                None => Value::String(crate::text::str_to_string("?")),
            },
            Term::Constant(c) => copy_value(c),
        };
        let ghost prev = out@;
        out.push(v);
        i = i + 1;
        assert(values_view(out@) =~= values_view(prev).push(v@));
        assert(hv.take(i as int) =~= hv.take(i - 1).push(hv[i - 1]));
        assert(project(hv.take(i as int), b@) =~= project(hv.take(i - 1), b@).push(project(hv.take(i as int), b@)[i - 1]));
    }
    assert(hv.take(i as int) =~= hv);
    out
}

} // verus!
