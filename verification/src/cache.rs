use vstd::prelude::*;
use crate::build::args::label_text;
use crate::datalog::types::{copy_string, facts_view, Fact, SpecFact, SpecValue, TargetLabel, Value};
use crate::text::str_to_string;

verus! {

/// The fact `cached_hash(target, file, hash)`: the hash that `file` had when `target` was
/// last built.
pub open spec fn cached_fact(target: Seq<char>, file: Seq<char>, hash: Seq<char>) -> SpecFact {
    SpecFact {
        predicate: "cached_hash"@,
        args: seq![SpecValue::Str(target), SpecValue::Str(file), SpecValue::Str(hash)],
    }
}

/// The facts of the recorded `(file, hash)` rows of a target, in the order of the rows.
pub open spec fn cached_facts(target: Seq<char>, rows: Seq<(String, String)>) -> Seq<SpecFact> {
    rows.map_values(|row: (String, String)| cached_fact(target, row.0@, row.1@))
}

/// The `cached_hash` facts of `target` from the rows that its cache holds.
pub fn cached_hash_facts(target: &TargetLabel, rows: &Vec<(String, String)>) -> (r: Vec<Fact>)
    ensures
        facts_view(r@) == cached_facts(label_text(target@), rows@),
{
    let label = target.to_string();
    let ghost lt = label_text(target@);
    let mut out: Vec<Fact> = Vec::new();
    let mut k: usize = 0;
    assert(facts_view(out@) =~= cached_facts(lt, rows@.take(0)));
    while k < rows.len()
        invariant
            k <= rows@.len(),
            label@ == lt,
            lt == label_text(target@),
            facts_view(out@) == cached_facts(lt, rows@.take(k as int)),
        decreases rows@.len() - k,
    {
        let mut args: Vec<Value> = Vec::new();
        args.push(Value::String(copy_string(&label)));
        args.push(Value::String(copy_string(&rows[k].0)));
        args.push(Value::String(copy_string(&rows[k].1)));
        let f = Fact { predicate: str_to_string("cached_hash"), args };
        assert(f@.args =~= seq![SpecValue::Str(lt), SpecValue::Str(rows@[k as int].0@), SpecValue::Str(rows@[k as int].1@)]);
        let ghost prev = out@;
        out.push(f);
        assert(rows@.take(k + 1) =~= rows@.take(k as int).push(rows@[k as int]));
        assert(facts_view(out@) =~= facts_view(prev).push(f@));
        assert(cached_facts(lt, rows@.take(k + 1)) =~= cached_facts(lt, rows@.take(k as int)).push(
            cached_fact(lt, rows@[k as int].0@, rows@[k as int].1@),
        ));
        k = k + 1;
    }
    assert(rows@.take(k as int) =~= rows@);
    out
}

} // verus!
