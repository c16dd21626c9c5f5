use vstd::prelude::*;
use vstd::utf8::encode_utf8;
use crate::text::{str_to_string, push_all, push_string, string_chars};
use crate::datalog::types::{TargetLabel, Value, SpecValue, Fact, SpecFact, facts_view, copy_string};
use crate::datalog::builtins::{EvalError, SpecEvalError};
use crate::datalog::store::{SpecEngine, strings_view, key_index, assoc_put, lemma_key_index_bounds};
use crate::datalog::semantics::string_at;
use crate::datalog::eval::{string_at_exec, seq_contains_string};
use crate::datalog::engine::Engine;
use crate::datalog::query::{query_result, filters_view};
use crate::build::args::{pairs_view, label_text};
use crate::datalog::locations::keys_distinct;
use crate::build::system_tool::{second_where, second_where_exec, query_all};

verus! {

/// The 64-bit XXH3 hash of a byte string.
pub uninterp spec fn xxh3_of(bytes: Seq<u8>) -> u64;

/// `xxhash_rust::xxh3::xxh3_64`: the XXH3 hash, with the default seed and secret, of the
/// bytes; the same bytes always give the same hash.
#[verifier::external_body]
fn xxh3_hash(bytes: &[u8]) -> (r: u64)
    ensures
        r == xxh3_of(bytes@),
{
    xxhash_rust::xxh3::xxh3_64(bytes)
}

/// The hash of a text: the hash of its UTF-8 bytes.
pub open spec fn text_hash(s: Seq<char>) -> u64 {
    xxh3_of(encode_utf8(s))
}

fn text_hash_exec(s: &str) -> (r: u64)
    ensures
        r == text_hash(s@),
{
    xxh3_hash(s.as_bytes())
}

pub open spec fn hex_digits() -> Seq<char> {
    seq!['0', '1', '2', '3', '4', '5', '6', '7', '8', '9', 'a', 'b', 'c', 'd', 'e', 'f']
}

/// The digit of `v` in base 16 at position `i` from the left, of sixteen.
pub open spec fn nibble(v: u64, i: int) -> u64 {
    (v >> ((15 - i) * 4) as u64) & 15u64
}

/// `v` in lower-case hexadecimal, padded with zeros to sixteen digits.
pub open spec fn hex16(v: u64) -> Seq<char> {
    Seq::new(16, |i: int| hex_digits()[nibble(v, i) as int])
}

/// `v` in lower-case hexadecimal, padded with zeros to sixteen digits.
pub fn hex16_exec(v: u64) -> (r: String)
    ensures
        r@ == hex16(v),
{
    let digits: [char; 16] = ['0', '1', '2', '3', '4', '5', '6', '7', '8', '9', 'a', 'b', 'c', 'd', 'e', 'f'];
    assert(digits@ =~= hex_digits());
    let mut cs: Vec<char> = Vec::new();
    let mut i: u64 = 0;
    while i < 16
        invariant
            i <= 16,
            digits@ == hex_digits(),
            cs@ =~= Seq::new(i as nat, |j: int| hex_digits()[nibble(v, j) as int]),
        decreases 16 - i,
    {
        let shifted: u64 = v >> ((15 - i) * 4);
        let d: u64 = shifted & 15u64;
        assert(d == nibble(v, i as int));
        assert(d < 16) by (bit_vector)
            requires d == shifted & 15u64;
        cs.push(digits[d as usize]);
        i = i + 1;
    }
    crate::text::string_from_chars(cs.as_slice())
}

/// Whether `a` comes before `b` in lexicographic order of their characters.
pub open spec fn text_less(a: Seq<char>, b: Seq<char>) -> bool
    decreases a.len(),
{
    if a.len() == 0 {
        b.len() > 0
    } else if b.len() == 0 {
        false
    } else if a[0] != b[0] {
        (a[0] as u32) < (b[0] as u32)
    } else {
        text_less(a.skip(1), b.skip(1))
    }
}

/// Whether the pair `a` comes before `b`: by the first text, then by the second.
pub open spec fn pair_less(a: (Seq<char>, Seq<char>), b: (Seq<char>, Seq<char>)) -> bool {
    text_less(a.0, b.0) || (a.0 == b.0 && text_less(a.1, b.1))
}

/// `x` put into `sorted` before the entries it comes before at the end.
pub open spec fn insert_pair(sorted: Seq<(Seq<char>, Seq<char>)>, x: (Seq<char>, Seq<char>)) -> Seq<(Seq<char>, Seq<char>)>
    decreases sorted.len(),
{
    if sorted.len() == 0 {
        seq![x]
    } else if pair_less(x, sorted.last()) {
        insert_pair(sorted.drop_last(), x).push(sorted.last())
    } else {
        sorted.push(x)
    }
}

/// The pairs in ascending order.
pub open spec fn sorted_pairs(s: Seq<(Seq<char>, Seq<char>)>) -> Seq<(Seq<char>, Seq<char>)>
    decreases s.len(),
{
    if s.len() == 0 {
        Seq::empty()
    } else {
        insert_pair(sorted_pairs(s.drop_last()), s.last())
    }
}

fn text_less_exec(a: &String, b: &String) -> (r: bool)
    ensures
        r == text_less(a@, b@),
{
    let x = string_chars(a);
    let y = string_chars(b);
    let mut i: usize = 0;
    assert(x@.skip(0) =~= x@);
    assert(y@.skip(0) =~= y@);
    while i < x.len() && i < y.len() && x[i] == y[i]
        invariant
            i <= x@.len(),
            i <= y@.len(),
            text_less(x@, y@) == text_less(x@.skip(i as int), y@.skip(i as int)),
        decreases x@.len() - i,
    {
        assert(x@.skip(i as int).skip(1) =~= x@.skip(i + 1));
        assert(y@.skip(i as int).skip(1) =~= y@.skip(i + 1));
        i = i + 1;
    }
    if i == x.len() {
        i < y.len()
    } else if i == y.len() {
        false
    } else {
        (x[i] as u32) < (y[i] as u32)
    }
}

fn pair_less_exec(a: &(String, String), b: &(String, String)) -> (r: bool)
    ensures
        r == pair_less((a.0@, a.1@), (b.0@, b.1@)),
{
    text_less_exec(&a.0, &b.0) || (crate::datalog::types::string_eq(&a.0, &b.0) && text_less_exec(&a.1, &b.1))
}

/// The pairs in ascending order (see `sorted_pairs`).
fn sort_pairs(ps: &Vec<(String, String)>) -> (r: Vec<(String, String)>)
    ensures
        pairs_view(r@) == sorted_pairs(pairs_view(ps@)),
{
    let ghost pv = pairs_view(ps@);
    let mut out: Vec<(String, String)> = Vec::new();
    let mut k: usize = 0;
    assert(pv.take(0) =~= Seq::<(Seq<char>, Seq<char>)>::empty());
    assert(pairs_view(out@) =~= Seq::<(Seq<char>, Seq<char>)>::empty());
    while k < ps.len()
        invariant
            k <= ps@.len(),
            pv == pairs_view(ps@),
            pairs_view(out@) == sorted_pairs(pv.take(k as int)),
        decreases ps@.len() - k,
    {
        assert(pv.take(k + 1).drop_last() =~= pv.take(k as int));
        let x = (copy_string(&ps[k].0), copy_string(&ps[k].1));
        let ghost xv = (x.0@, x.1@);
        assert(pv.take(k + 1).last() == xv);
        let ghost ov = pairs_view(out@);
        let mut j: usize = out.len();
        assert(ov.take(j as int) =~= ov);
        assert(ov.skip(j as int) =~= Seq::<(Seq<char>, Seq<char>)>::empty());
        while j > 0 && pair_less_exec(&x, &out[j - 1])
            invariant
                j <= out@.len(),
                ov == pairs_view(out@),
                xv == (x.0@, x.1@),
                insert_pair(ov, xv) == insert_pair(ov.take(j as int), xv) + ov.skip(j as int),
            decreases j,
        {
            assert(ov.take(j as int).drop_last() =~= ov.take(j - 1));
            assert(ov.take(j as int).last() == ov[j - 1]);
            assert(ov.skip(j - 1) =~= seq![ov[j - 1]] + ov.skip(j as int));
            assert(insert_pair(ov.take(j - 1), xv).push(ov[j - 1]) + ov.skip(j as int)
                =~= insert_pair(ov.take(j - 1), xv) + ov.skip(j - 1));
            j = j - 1;
        }
        proof {
            if j == 0 {
                assert(ov.take(0) =~= Seq::<(Seq<char>, Seq<char>)>::empty());
            } else {
                assert(ov.take(j as int).last() == ov[j - 1]);
            }
        }
        out.insert(j, x);
        assert(pairs_view(out@) =~= ov.take(j as int).push(xv) + ov.skip(j as int));
        assert(insert_pair(ov.take(j as int), xv) == ov.take(j as int).push(xv));
        k = k + 1;
    }
    assert(pv.take(k as int) =~= pv);
    out
}

/// The text `key=value;` of each pair, in order.
pub open spec fn attrs_text(ps: Seq<(Seq<char>, Seq<char>)>) -> Seq<char>
    decreases ps.len(),
{
    if ps.len() == 0 {
        Seq::empty()
    } else {
        attrs_text(ps.drop_last()) + ps.last().0 + "="@ + ps.last().1 + ";"@
    }
}

/// The hash of the sorted attributes of a target, in hexadecimal.
pub open spec fn attrs_digest(ps: Seq<(Seq<char>, Seq<char>)>) -> Seq<char> {
    hex16(text_hash(attrs_text(sorted_pairs(ps))))
}

fn attrs_digest_exec(ps: &Vec<(String, String)>) -> (r: String)
    ensures
        r@ == attrs_digest(pairs_view(ps@)),
{
    let sorted = sort_pairs(ps);
    let ghost sv = pairs_view(sorted@);
    let mut text = String::new();
    let mut k: usize = 0;
    assert(sv.take(0) =~= Seq::<(Seq<char>, Seq<char>)>::empty());
    while k < sorted.len()
        invariant
            k <= sorted@.len(),
            sv == pairs_view(sorted@),
            text@ == attrs_text(sv.take(k as int)),
        decreases sorted@.len() - k,
    {
        assert(sv.take(k + 1).drop_last() =~= sv.take(k as int));
        assert(sv.take(k + 1).last() == (sorted@[k as int].0@, sorted@[k as int].1@));
        push_string(&mut text, &sorted[k].0);
        push_all(&mut text, "=");
        push_string(&mut text, &sorted[k].1);
        push_all(&mut text, ";");
        k = k + 1;
    }
    assert(sv.take(k as int) =~= sv);
    hex16_exec(text_hash_exec(text.as_str()))
}

/// The `(key, value)` pairs of the facts whose second and third arguments are strings.
pub open spec fn attr_pairs(fs: Seq<SpecFact>) -> Seq<(Seq<char>, Seq<char>)>
    decreases fs.len(),
{
    if fs.len() == 0 {
        Seq::empty()
    } else {
        let prev = attr_pairs(fs.drop_last());
        match (string_at(fs.last(), 1), string_at(fs.last(), 2)) {
            (Some(k), Some(v)) => prev.push((k, v)),
            _ => prev,
        }
    }
}

/// The `(key, value)` pairs of the facts whose first three arguments are strings, the first `t`.
pub open spec fn attr_pairs_of(fs: Seq<SpecFact>, t: Seq<char>) -> Seq<(Seq<char>, Seq<char>)>
    decreases fs.len(),
{
    if fs.len() == 0 {
        Seq::empty()
    } else {
        let prev = attr_pairs_of(fs.drop_last(), t);
        match (string_at(fs.last(), 0), string_at(fs.last(), 1), string_at(fs.last(), 2)) {
            (Some(o), Some(k), Some(v)) => if o == t { prev.push((k, v)) } else { prev },
            _ => prev,
        }
    }
}

fn attr_pairs_exec(fs: &Vec<Fact>, t: Option<&String>) -> (r: Vec<(String, String)>)
    ensures
        pairs_view(r@) == match t {
            Some(t) => attr_pairs_of(facts_view(fs@), t@),
            None => attr_pairs(facts_view(fs@)),
        },
{
    let ghost fv = facts_view(fs@);
    let mut out: Vec<(String, String)> = Vec::new();
    let mut k: usize = 0;
    assert(fv.take(0) =~= Seq::<SpecFact>::empty());
    assert(pairs_view(out@) =~= Seq::<(Seq<char>, Seq<char>)>::empty());
    while k < fs.len()
        invariant
            k <= fs@.len(),
            fv == facts_view(fs@),
            pairs_view(out@) == match t {
                Some(t) => attr_pairs_of(fv.take(k as int), t@),
                None => attr_pairs(fv.take(k as int)),
            },
        decreases fs@.len() - k,
    {
        assert(fv.take(k + 1).drop_last() =~= fv.take(k as int));
        assert(fv.take(k + 1).last() == fs@[k as int]@);
        let f = &fs[k];
        let owner_ok = match t {
            Some(t) => match string_at_exec(f, 0) {
                Some(o) => crate::datalog::types::string_eq(o, t),
                None => false,
            },
            None => true,
        };
        match (string_at_exec(f, 1), string_at_exec(f, 2)) {
            (Some(key), Some(v)) => {
                if owner_ok {
                    let ghost prev = pairs_view(out@);
                    out.push((copy_string(key), copy_string(v)));
                    assert(pairs_view(out@) =~= prev.push((key@, v@)));
                }
            },
            _ => {},
        }
        k = k + 1;
    }
    assert(fv.take(k as int) =~= fv);
    out
}

/// The name under which the hash of a tool's path is kept.
pub open spec fn tool_key(tool: Seq<char>) -> Seq<char> {
    "__tool_"@ + tool + "__"@
}

/// For each fact whose first three arguments are strings, the first `t`: the tool's key and
/// the hash of its path.
pub open spec fn tool_entries(fs: Seq<SpecFact>, t: Seq<char>) -> Seq<(Seq<char>, Seq<char>)>
    decreases fs.len(),
{
    if fs.len() == 0 {
        Seq::empty()
    } else {
        let prev = tool_entries(fs.drop_last(), t);
        match (string_at(fs.last(), 0), string_at(fs.last(), 1), string_at(fs.last(), 2)) {
            (Some(o), Some(tool), Some(path)) => if o == t {
                prev.push((tool_key(tool), hex16(text_hash(path))))
            } else {
                prev
            },
            _ => prev,
        }
    }
}

fn tool_entries_exec(fs: &Vec<Fact>, t: &String) -> (r: Vec<(String, String)>)
    ensures
        pairs_view(r@) == tool_entries(facts_view(fs@), t@),
{
    let ghost fv = facts_view(fs@);
    let mut out: Vec<(String, String)> = Vec::new();
    let mut k: usize = 0;
    assert(fv.take(0) =~= Seq::<SpecFact>::empty());
    assert(pairs_view(out@) =~= Seq::<(Seq<char>, Seq<char>)>::empty());
    while k < fs.len()
        invariant
            k <= fs@.len(),
            fv == facts_view(fs@),
            pairs_view(out@) == tool_entries(fv.take(k as int), t@),
        decreases fs@.len() - k,
    {
        assert(fv.take(k + 1).drop_last() =~= fv.take(k as int));
        assert(fv.take(k + 1).last() == fs@[k as int]@);
        let f = &fs[k];
        match (string_at_exec(f, 0), string_at_exec(f, 1), string_at_exec(f, 2)) {
            (Some(o), Some(tool), Some(path)) => {
                if crate::datalog::types::string_eq(o, t) {
                    let mut key = str_to_string("__tool_");
                    push_string(&mut key, tool);
                    push_all(&mut key, "__");
                    let h = hex16_exec(text_hash_exec(path.as_str()));
                    let ghost prev = pairs_view(out@);
                    out.push((key, h));
                    assert(pairs_view(out@) =~= prev.push((tool_key(tool@), hex16(text_hash(path@)))));
                }
            },
            _ => {},
        }
        k = k + 1;
    }
    assert(fv.take(k as int) =~= fv);
    out
}

/// The fact `file_hash(path, hash)`.
pub open spec fn hash_fact(path: Seq<char>, hash: Seq<char>) -> SpecFact {
    SpecFact { predicate: "file_hash"@, args: seq![SpecValue::Str(path), SpecValue::Str(hash)] }
}

fn hash_fact_exec(path: &String, hash: &String) -> (r: Fact)
    ensures
        r@ == hash_fact(path@, hash@),
{
    let mut args: Vec<Value> = Vec::new();
    args.push(Value::String(copy_string(path)));
    args.push(Value::String(copy_string(hash)));
    let f = Fact { predicate: str_to_string("file_hash"), args };
    assert(f@.args =~= seq![SpecValue::Str(path@), SpecValue::Str(hash@)]);
    f
}

/// The `file_hash` fact of a file with the given contents.
pub fn file_hash_fact(path: &str, contents: &[u8]) -> (r: Fact)
    ensures
        r@ == hash_fact(path@, hex16(xxh3_of(contents@))),
{
    let h = hex16_exec(xxh3_hash(contents));
    hash_fact_exec(&str_to_string(path), &h)
}

/// The `file_hash` facts that stand for a target's attributes and tools: the hash of its
/// sorted attributes (from `attrs`, the `attr` facts of the target) under `__attrs__`, then the
/// hash of the path of each of its tools (from `toolchain`) under the tool's key.
pub open spec fn setting_facts(attrs: Seq<SpecFact>, toolchain: Seq<SpecFact>, t: Seq<char>) -> Seq<SpecFact> {
    seq![hash_fact("__attrs__"@, attrs_digest(attr_pairs(attrs)))]
        + tool_entries(toolchain, t).map_values(|e: (Seq<char>, Seq<char>)| hash_fact(e.0, e.1))
}

/// What computing a target's setting facts gives: its `attr` facts (queried for the target)
/// and all `toolchain` facts are read in that order.
pub open spec fn settings_of(e: SpecEngine, t: Seq<char>) -> Result<Seq<SpecFact>, SpecEvalError> {
    match query_result(e, "attr"@, seq![Some(t)]) {
        Err(x) => Err(x),
        Ok(afs) => match query_result(e, "toolchain"@, Seq::empty()) {
            Err(x) => Err(x),
            Ok(tfs) => Ok(setting_facts(afs, tfs, t)),
        },
    }
}

/// The facts that record the hashes of a target's attributes and tools (see `settings_of`).
pub fn setting_hash_facts(db: &mut Engine, target: &str) -> (r: Result<Vec<Fact>, EvalError>)
    ensures
        final(db)@ == old(db)@,
        match (r, settings_of(old(db)@, target@)) {
            (Ok(fs), Ok(sfs)) => facts_view(fs@) == sfs,
            (Err(x), Err(sx)) => x@ == sx,
            _ => false,
        },
{
    proof {
        reveal_strlit("source_location");
        reveal_strlit("attr");
        reveal_strlit("toolchain");
        assert("attr"@.len() != "source_location"@.len());
        assert("toolchain"@.len() != "source_location"@.len());
    }
    let filters: Vec<Option<&str>> = vec![Some(target)];
    assert(filters_view(filters@) =~= seq![Some(target@)]);
    let afs = match db.query("attr", filters.as_slice()) {
        Ok(fs) => fs,
        Err(x) => {
            return Err(x);
        },
    };
    let tfs = match query_all(db, "toolchain") {
        Ok(fs) => fs,
        Err(x) => {
            return Err(x);
        },
    };
    let pairs = attr_pairs_exec(&afs, None);
    let digest = attrs_digest_exec(&pairs);
    let mut out: Vec<Fact> = Vec::new();
    out.push(hash_fact_exec(&str_to_string("__attrs__"), &digest));
    let ts = str_to_string(target);
    let tools = tool_entries_exec(&tfs, &ts);
    let ghost tv = pairs_view(tools@);
    let ghost first = facts_view(out@);
    let mut k: usize = 0;
    while k < tools.len()
        invariant
            k <= tools@.len(),
            tv == pairs_view(tools@),
            facts_view(out@) == first + tv.take(k as int).map_values(|e: (Seq<char>, Seq<char>)| hash_fact(e.0, e.1)),
        decreases tools@.len() - k,
    {
        let f = hash_fact_exec(&tools[k].0, &tools[k].1);
        let ghost prev = facts_view(out@);
        out.push(f);
        k = k + 1;
        assert(facts_view(out@) =~= prev.push(f@));
        assert(tv.take(k as int).map_values(|e: (Seq<char>, Seq<char>)| hash_fact(e.0, e.1))
            =~= tv.take(k - 1).map_values(|e: (Seq<char>, Seq<char>)| hash_fact(e.0, e.1)).push(hash_fact(tv[k - 1].0, tv[k - 1].1)));
    }
    assert(tv.take(k as int) =~= tv);
    assert(first =~= seq![hash_fact("__attrs__"@, attrs_digest(attr_pairs(facts_view(afs@))))]);
    Ok(out)
}

/// For each path of `paths` that the `file_hash` facts `hfs` record, the path and the second
/// argument of the first such fact.
pub open spec fn known_hashes(paths: Seq<Seq<char>>, hfs: Seq<SpecFact>) -> Seq<(Seq<char>, Seq<char>)>
    decreases paths.len(),
{
    if paths.len() == 0 {
        Seq::empty()
    } else {
        let prev = known_hashes(paths.drop_last(), hfs);
        let hs = second_where(hfs, paths.last());
        if hs.len() > 0 { prev.push((paths.last(), hs[0])) } else { prev }
    }
}

/// The outputs of the dependencies `deps`: those of each dependency in turn, in the order of
/// the `outputs` facts.
pub open spec fn dep_outputs(deps: Seq<Seq<char>>, ofs: Seq<SpecFact>) -> Seq<Seq<char>>
    decreases deps.len(),
{
    if deps.len() == 0 {
        Seq::empty()
    } else {
        dep_outputs(deps.drop_last(), ofs) + second_where(ofs, deps.last())
    }
}

/// The hashes recorded for a built target, in the order they are found: its sources and
/// build inputs, its attributes, its tools, and the outputs of its direct dependencies.
pub open spec fn hash_entries(
    t: Seq<char>,
    sfs: Seq<SpecFact>,
    bfs: Seq<SpecFact>,
    hfs: Seq<SpecFact>,
    afs: Seq<SpecFact>,
    tfs: Seq<SpecFact>,
    dfs: Seq<SpecFact>,
    ofs: Seq<SpecFact>,
) -> Seq<(Seq<char>, Seq<char>)> {
    known_hashes(second_where(sfs + bfs, t), hfs)
        + seq![("__attrs__"@, attrs_digest(attr_pairs_of(afs, t)))]
        + tool_entries(tfs, t)
        + known_hashes(dep_outputs(second_where(dfs, t), ofs), hfs)
}

/// The map that recording `entries` in order gives: a later entry replaces the value of an
/// earlier one with its key, which keeps its place.
pub open spec fn recorded(entries: Seq<(Seq<char>, Seq<char>)>) -> Seq<(Seq<char>, Seq<char>)>
    decreases entries.len(),
{
    if entries.len() == 0 {
        Seq::empty()
    } else {
        assoc_put(recorded(entries.drop_last()), entries.last().0, entries.last().1)
    }
}

/// What collecting a built target's hashes gives; the facts are read in the order `sources`,
/// `build_input`, `file_hash`, `attr`, `toolchain`, `deps`, `outputs`.
pub open spec fn source_hashes(e: SpecEngine, t: Seq<char>) -> Result<Seq<(Seq<char>, Seq<char>)>, SpecEvalError> {
    match query_result(e, "sources"@, Seq::empty()) {
        Err(x) => Err(x),
        Ok(sfs) => match query_result(e, "build_input"@, Seq::empty()) {
            Err(x) => Err(x),
            Ok(bfs) => match query_result(e, "file_hash"@, Seq::empty()) {
                Err(x) => Err(x),
                Ok(hfs) => match query_result(e, "attr"@, Seq::empty()) {
                    Err(x) => Err(x),
                    Ok(afs) => match query_result(e, "toolchain"@, Seq::empty()) {
                        Err(x) => Err(x),
                        Ok(tfs) => match query_result(e, "deps"@, Seq::empty()) {
                            Err(x) => Err(x),
                            Ok(dfs) => match query_result(e, "outputs"@, Seq::empty()) {
                                Err(x) => Err(x),
                                Ok(ofs) => Ok(recorded(hash_entries(t, sfs, bfs, hfs, afs, tfs, dfs, ofs))),
                            },
                        },
                    },
                },
            },
        },
    }
}

fn known_hashes_exec(paths: &Vec<String>, hfs: &Vec<Fact>) -> (r: Vec<(String, String)>)
    ensures
        pairs_view(r@) == known_hashes(strings_view(paths@), facts_view(hfs@)),
{
    let ghost pv = strings_view(paths@);
    let mut out: Vec<(String, String)> = Vec::new();
    let mut k: usize = 0;
    assert(pv.take(0) =~= Seq::<Seq<char>>::empty());
    assert(pairs_view(out@) =~= Seq::<(Seq<char>, Seq<char>)>::empty());
    while k < paths.len()
        invariant
            k <= paths@.len(),
            pv == strings_view(paths@),
            pairs_view(out@) == known_hashes(pv.take(k as int), facts_view(hfs@)),
        decreases paths@.len() - k,
    {
        assert(pv.take(k + 1).drop_last() =~= pv.take(k as int));
        assert(pv.take(k + 1).last() == paths@[k as int]@);
        let hs = second_where_exec(hfs, paths[k].as_str());
        if hs.len() > 0 {
            let ghost prev = pairs_view(out@);
            out.push((copy_string(&paths[k]), copy_string(&hs[0])));
            assert(pairs_view(out@) =~= prev.push((paths@[k as int]@, strings_view(hs@)[0])));
        }
        k = k + 1;
    }
    assert(pv.take(k as int) =~= pv);
    out
}

fn dep_outputs_exec(deps: &Vec<String>, ofs: &Vec<Fact>) -> (r: Vec<String>)
    ensures
        strings_view(r@) == dep_outputs(strings_view(deps@), facts_view(ofs@)),
{
    let ghost dv = strings_view(deps@);
    let mut out: Vec<String> = Vec::new();
    let mut k: usize = 0;
    assert(dv.take(0) =~= Seq::<Seq<char>>::empty());
    assert(strings_view(out@) =~= Seq::<Seq<char>>::empty());
    while k < deps.len()
        invariant
            k <= deps@.len(),
            dv == strings_view(deps@),
            strings_view(out@) == dep_outputs(dv.take(k as int), facts_view(ofs@)),
        decreases deps@.len() - k,
    {
        assert(dv.take(k + 1).drop_last() =~= dv.take(k as int));
        assert(dv.take(k + 1).last() == deps@[k as int]@);
        let mut more = second_where_exec(ofs, deps[k].as_str());
        let ghost ov = strings_view(out@);
        let ghost mv = strings_view(more@);
        out.append(&mut more);
        assert(strings_view(out@) =~= ov + mv);
        k = k + 1;
    }
    assert(dv.take(k as int) =~= dv);
    out
}

/// Records `(k, v)`: replaces the value of the entry with key `k`, or adds the entry.
fn record_entry(out: &mut Vec<(String, String)>, k: &String, v: &String)
    requires
        keys_distinct(pairs_view(old(out)@)),
    ensures
        keys_distinct(pairs_view(final(out)@)),
        pairs_view(final(out)@) == assoc_put(pairs_view(old(out)@), k@, v@),
{
    let ghost ov = pairs_view(out@);
    proof { lemma_key_index_bounds(ov, k@); }
    let mut i: usize = 0;
    while i < out.len()
        invariant
            i <= out@.len(),
            ov == pairs_view(out@),
            ov == pairs_view(old(out)@),
            keys_distinct(ov),
            key_index(ov, k@) matches Some(j) ==> 0 <= j < ov.len() && ov[j].0 == k@,
            key_index(ov, k@) is None ==> forall|j: int| 0 <= j < ov.len() ==> ov[j].0 != k@,
            forall|j: int| 0 <= j < i ==> ov[j].0 != k@,
        decreases out@.len() - i,
    {
        if crate::datalog::types::string_eq(&out[i].0, k) {
            assert(ov[i as int].0 == k@);
            assert(key_index(ov, k@) == Some(i as int));
            let kc = copy_string(k);
            let vc = copy_string(v);
            out.set(i, (kc, vc));
            assert(pairs_view(out@) =~= ov.update(i as int, (k@, v@)));
            assert(assoc_put(ov, k@, v@) == ov.update(i as int, (k@, v@)));
            return;
        }
        i = i + 1;
    }
    assert(key_index(ov, k@) is None);
    out.push((copy_string(k), copy_string(v)));
    assert(pairs_view(out@) =~= ov.push((k@, v@)));
}

fn push_pairs(out: &mut Vec<(String, String)>, ps: &Vec<(String, String)>)
    ensures
        pairs_view(final(out)@) == pairs_view(old(out)@) + pairs_view(ps@),
{
    let ghost start = pairs_view(out@);
    let mut i: usize = 0;
    while i < ps.len()
        invariant
            i <= ps@.len(),
            pairs_view(out@) == start + pairs_view(ps@).take(i as int),
        decreases ps@.len() - i,
    {
        let ghost prev = pairs_view(out@);
        out.push((copy_string(&ps[i].0), copy_string(&ps[i].1)));
        i = i + 1;
        assert(pairs_view(out@) =~= prev.push((ps@[i - 1].0@, ps@[i - 1].1@)));
        assert(pairs_view(ps@).take(i as int) =~= pairs_view(ps@).take(i - 1).push((ps@[i - 1].0@, ps@[i - 1].1@)));
    }
    assert(pairs_view(ps@).take(i as int) =~= pairs_view(ps@));
}

/// The hashes to remember for a target that was built (see `source_hashes`): each path or
/// name with its hash, each name once.
pub fn collect_source_hashes(target: &TargetLabel, db: &mut Engine) -> (r: Result<Vec<(String, String)>, EvalError>)
    ensures
        final(db)@ == old(db)@,
        match (r, source_hashes(old(db)@, label_text(target@))) {
            (Ok(hs), Ok(shs)) => pairs_view(hs@) == shs,
            (Err(x), Err(sx)) => x@ == sx,
            _ => false,
        },
{
    proof {
        reveal_strlit("source_location");
        reveal_strlit("sources");
        reveal_strlit("build_input");
        reveal_strlit("file_hash");
        reveal_strlit("attr");
        reveal_strlit("toolchain");
        reveal_strlit("deps");
        reveal_strlit("outputs");
        assert("sources"@.len() != "source_location"@.len());
        assert("build_input"@.len() != "source_location"@.len());
        assert("file_hash"@.len() != "source_location"@.len());
        assert("attr"@.len() != "source_location"@.len());
        assert("toolchain"@.len() != "source_location"@.len());
        assert("deps"@.len() != "source_location"@.len());
        assert("outputs"@.len() != "source_location"@.len());
    }
    let ts = target.to_string();
    let sfs = match query_all(db, "sources") { Ok(fs) => fs, Err(x) => { return Err(x); } };
    let bfs = match query_all(db, "build_input") { Ok(fs) => fs, Err(x) => { return Err(x); } };
    let hfs = match query_all(db, "file_hash") { Ok(fs) => fs, Err(x) => { return Err(x); } };
    let afs = match query_all(db, "attr") { Ok(fs) => fs, Err(x) => { return Err(x); } };
    let tfs = match query_all(db, "toolchain") { Ok(fs) => fs, Err(x) => { return Err(x); } };
    let dfs = match query_all(db, "deps") { Ok(fs) => fs, Err(x) => { return Err(x); } };
    let ofs = match query_all(db, "outputs") { Ok(fs) => fs, Err(x) => { return Err(x); } };
    let mut inputs = crate::datalog::eval::copy_facts(&sfs);
    let mut more = crate::datalog::eval::copy_facts(&bfs);
    let ghost (iv, mv) = (facts_view(inputs@), facts_view(more@));
    inputs.append(&mut more);
    assert(facts_view(inputs@) =~= iv + mv);
    let paths = second_where_exec(&inputs, ts.as_str());
    let mut entries = known_hashes_exec(&paths, &hfs);
    let pairs = attr_pairs_exec(&afs, Some(&ts));
    let digest = attrs_digest_exec(&pairs);
    let ghost e0 = pairs_view(entries@);
    entries.push((str_to_string("__attrs__"), digest));
    assert(pairs_view(entries@) =~= e0 + seq![("__attrs__"@, attrs_digest(attr_pairs_of(facts_view(afs@), ts@)))]);
    let tools = tool_entries_exec(&tfs, &ts);
    push_pairs(&mut entries, &tools);
    let deps = second_where_exec(&dfs, ts.as_str());
    let outs = dep_outputs_exec(&deps, &ofs);
    let dep_hashes = known_hashes_exec(&outs, &hfs);
    push_pairs(&mut entries, &dep_hashes);
    let ghost ev = pairs_view(entries@);
    let mut out: Vec<(String, String)> = Vec::new();
    let mut k: usize = 0;
    assert(ev.take(0) =~= Seq::<(Seq<char>, Seq<char>)>::empty());
    assert(pairs_view(out@) =~= Seq::<(Seq<char>, Seq<char>)>::empty());
    while k < entries.len()
        invariant
            k <= entries@.len(),
            ev == pairs_view(entries@),
            keys_distinct(pairs_view(out@)),
            pairs_view(out@) == recorded(ev.take(k as int)),
        decreases entries@.len() - k,
    {
        assert(ev.take(k + 1).drop_last() =~= ev.take(k as int));
        assert(ev.take(k + 1).last() == (entries@[k as int].0@, entries@[k as int].1@));
        record_entry(&mut out, &entries[k].0, &entries[k].1);
        k = k + 1;
    }
    assert(ev.take(k as int) =~= ev);
    Ok(out)
}

/// The fact `file_exists(path)`.
pub open spec fn exists_fact(path: Seq<char>) -> SpecFact {
    SpecFact { predicate: "file_exists"@, args: seq![SpecValue::Str(path)] }
}

fn exists_fact_exec(path: &String) -> (r: Fact)
    ensures
        r@ == exists_fact(path@),
{
    let mut args: Vec<Value> = Vec::new();
    args.push(Value::String(copy_string(path)));
    let f = Fact { predicate: str_to_string("file_exists"), args };
    assert(f@.args =~= seq![SpecValue::Str(path@)]);
    f
}

/// What the disk says of one input of a target: its path, whether it exists, and its
/// contents when they could be read.
pub open spec fn input_view(i: (String, bool, Option<Vec<u8>>)) -> (Seq<char>, bool, Option<Seq<u8>>) {
    (i.0@, i.1, match i.2 { Some(c) => Some(c@), None => None })
}

/// The facts that the disk gives a target before it is planned: `file_exists` for each of its
/// outputs that exists; then, for each of its sources and build inputs (in that order) that
/// exists, `file_exists` when it is a source, and its `file_hash` when it could be read.
pub open spec fn disk_state(outs: Seq<(Seq<char>, bool)>, sources: Seq<Seq<char>>, ins: Seq<(Seq<char>, bool, Option<Seq<u8>>)>) -> Seq<SpecFact> {
    outs.filter(|o: (Seq<char>, bool)| o.1).map_values(|o: (Seq<char>, bool)| exists_fact(o.0))
        + input_facts(sources, ins)
}

pub open spec fn input_facts(sources: Seq<Seq<char>>, ins: Seq<(Seq<char>, bool, Option<Seq<u8>>)>) -> Seq<SpecFact>
    decreases ins.len(),
{
    if ins.len() == 0 {
        Seq::empty()
    } else {
        let prev = input_facts(sources, ins.drop_last());
        let (p, present, contents) = ins.last();
        if !present {
            prev
        } else {
            prev + (if sources.contains(p) { seq![exists_fact(p)] } else { Seq::empty() })
                + match contents {
                    Some(c) => seq![hash_fact(p, hex16(xxh3_of(c)))],
                    None => Seq::empty(),
                }
        }
    }
}

/// The facts that the disk gives a target before it is planned (see `disk_state`).
pub fn disk_state_facts(outputs: &Vec<(String, bool)>, sources: &Vec<String>, inputs: &Vec<(String, bool, Option<Vec<u8>>)>) -> (r: Vec<Fact>)
    ensures
        facts_view(r@) == disk_state(
            outputs@.map_values(|o: (String, bool)| (o.0@, o.1)),
            strings_view(sources@),
            inputs@.map_values(|i: (String, bool, Option<Vec<u8>>)| input_view(i)),
        ),
{
    let ghost ov = outputs@.map_values(|o: (String, bool)| (o.0@, o.1));
    let ghost iv = inputs@.map_values(|i: (String, bool, Option<Vec<u8>>)| input_view(i));
    let mut out: Vec<Fact> = Vec::new();
    let mut k: usize = 0;
    assert(ov.take(0).filter(|o: (Seq<char>, bool)| o.1) =~= Seq::<(Seq<char>, bool)>::empty());
    while k < outputs.len()
        invariant
            k <= outputs@.len(),
            ov == outputs@.map_values(|o: (String, bool)| (o.0@, o.1)),
            facts_view(out@) == ov.take(k as int).filter(|o: (Seq<char>, bool)| o.1).map_values(|o: (Seq<char>, bool)| exists_fact(o.0)),
        decreases outputs@.len() - k,
    {
        let ghost prev = facts_view(out@);
        assert(ov.take(k + 1) =~= ov.take(k as int).push(ov[k as int]));
        reveal_with_fuel(Seq::filter, 1);
        assert(ov.take(k + 1).drop_last() =~= ov.take(k as int));
        if outputs[k].1 {
            let f = exists_fact_exec(&outputs[k].0);
            out.push(f);
            assert(facts_view(out@) =~= prev.push(f@));
            assert(ov.take(k + 1).filter(|o: (Seq<char>, bool)| o.1) =~= ov.take(k as int).filter(|o: (Seq<char>, bool)| o.1).push(ov[k as int]));
        } else {
            assert(ov.take(k + 1).filter(|o: (Seq<char>, bool)| o.1) =~= ov.take(k as int).filter(|o: (Seq<char>, bool)| o.1));
        }
        k = k + 1;
    }
    assert(ov.take(k as int) =~= ov);
    let ghost head = facts_view(out@);
    let mut j: usize = 0;
    assert(iv.take(0) =~= Seq::<(Seq<char>, bool, Option<Seq<u8>>)>::empty());
    assert(head + input_facts(strings_view(sources@), iv.take(0)) =~= head);
    while j < inputs.len()
        invariant
            j <= inputs@.len(),
            iv == inputs@.map_values(|i: (String, bool, Option<Vec<u8>>)| input_view(i)),
            facts_view(out@) == head + input_facts(strings_view(sources@), iv.take(j as int)),
        decreases inputs@.len() - j,
    {
        let ghost before = facts_view(out@);
        let ghost sv = strings_view(sources@);
        let ghost x = input_view(inputs@[j as int]);
        assert(iv.take(j + 1).drop_last() =~= iv.take(j as int));
        assert(iv.take(j + 1).last() == x);
        assert(input_facts(sv, iv.take(j + 1)) == {
            let prev = input_facts(sv, iv.take(j as int));
            if !x.1 {
                prev
            } else {
                prev + (if sv.contains(x.0) { seq![exists_fact(x.0)] } else { Seq::empty() })
                    + match x.2 {
                        Some(c) => seq![hash_fact(x.0, hex16(xxh3_of(c)))],
                        None => Seq::empty(),
                    }
            }
        });
        if inputs[j].1 {
            let ghost e_part: Seq<SpecFact> = if sv.contains(x.0) { seq![exists_fact(x.0)] } else { Seq::empty() };
            if seq_contains_string(sources, &inputs[j].0) {
                let f = exists_fact_exec(&inputs[j].0);
                out.push(f);
            }
            assert(facts_view(out@) =~= before + e_part);
            let ghost mid = facts_view(out@);
            match &inputs[j].2 {
                Some(c) => {
                    let f = file_hash_fact(inputs[j].0.as_str(), c.as_slice());
                    out.push(f);
                    assert(facts_view(out@) =~= mid + seq![hash_fact(x.0, hex16(xxh3_of(c@)))]);
                },
                None => {
                    assert(facts_view(out@) =~= mid + Seq::<SpecFact>::empty());
                },
            }
            assert(facts_view(out@) =~= head + input_facts(sv, iv.take(j + 1)));
        }
        j = j + 1;
    }
    assert(iv.take(j as int) =~= iv);
    out
}

/// Whether some entry of `es` has the key `k`.
pub open spec fn has_key(es: Seq<(Seq<char>, Seq<char>)>, k: Seq<char>) -> bool {
    exists|j: int| 0 <= j < es.len() && (#[trigger] es[j]).0 == k
}

proof fn lemma_second_where_has(fs: Seq<SpecFact>, a: Seq<char>, f: SpecFact)
    requires
        fs.contains(f),
        string_at(f, 0) == Some(a),
        string_at(f, 1) is Some,
    ensures
        second_where(fs, a).contains(string_at(f, 1)->0),
    decreases fs.len(),
{
    let prev = second_where(fs.drop_last(), a);
    if fs.last() == f {
        assert(second_where(fs, a) == prev.push(string_at(f, 1)->0));
        assert(second_where(fs, a)[prev.len() as int] == string_at(f, 1)->0);
    } else {
        let k = choose|k: int| 0 <= k < fs.len() && fs[k] == f;
        assert(k < fs.len() - 1);
        assert(fs.drop_last()[k] == f);
        lemma_second_where_has(fs.drop_last(), a, f);
        let j = choose|j: int| 0 <= j < prev.len() && prev[j] == string_at(f, 1)->0;
        if string_at(fs.last(), 0) == Some(a) && string_at(fs.last(), 1) is Some {
            assert(prev.push(string_at(fs.last(), 1)->0)[j] == prev[j]);
        }
    }
}

proof fn lemma_dep_outputs_has(deps: Seq<Seq<char>>, ofs: Seq<SpecFact>, d: Seq<char>, o: Seq<char>)
    requires
        deps.contains(d),
        second_where(ofs, d).contains(o),
    ensures
        dep_outputs(deps, ofs).contains(o),
    decreases deps.len(),
{
    let prev = dep_outputs(deps.drop_last(), ofs);
    let more = second_where(ofs, deps.last());
    if deps.last() == d {
        let j = choose|j: int| 0 <= j < more.len() && more[j] == o;
        assert((prev + more)[prev.len() + j] == o);
    } else {
        let k = choose|k: int| 0 <= k < deps.len() && deps[k] == d;
        assert(deps.drop_last()[k] == d);
        lemma_dep_outputs_has(deps.drop_last(), ofs, d, o);
        let j = choose|j: int| 0 <= j < prev.len() && prev[j] == o;
        assert((prev + more)[j] == o);
    }
}

proof fn lemma_known_hashes_has(paths: Seq<Seq<char>>, hfs: Seq<SpecFact>, o: Seq<char>)
    requires
        paths.contains(o),
        second_where(hfs, o).len() > 0,
    ensures
        has_key(known_hashes(paths, hfs), o),
    decreases paths.len(),
{
    let prev = known_hashes(paths.drop_last(), hfs);
    if paths.last() == o {
        let e = (o, second_where(hfs, o)[0]);
        assert(known_hashes(paths, hfs) == prev.push(e));
        assert(known_hashes(paths, hfs)[prev.len() as int].0 == o);
    } else {
        let k = choose|k: int| 0 <= k < paths.len() && paths[k] == o;
        assert(paths.drop_last()[k] == o);
        lemma_known_hashes_has(paths.drop_last(), hfs, o);
        let j = choose|j: int| 0 <= j < prev.len() && (#[trigger] prev[j]).0 == o;
        let hs = second_where(hfs, paths.last());
        if hs.len() > 0 {
            assert(prev.push((paths.last(), hs[0]))[j] == prev[j]);
        }
    }
}

proof fn lemma_recorded_keeps(es: Seq<(Seq<char>, Seq<char>)>, k: Seq<char>)
    requires
        has_key(es, k),
    ensures
        has_key(recorded(es), k),
    decreases es.len(),
{
    let prev = recorded(es.drop_last());
    let (k2, v) = es.last();
    lemma_key_index_bounds(prev, k2);
    if es.last().0 == k {
        match key_index(prev, k2) {
            Some(i) => { assert(prev.update(i, (k2, v))[i].0 == k); },
            None => { assert(prev.push((k2, v))[prev.len() as int].0 == k); },
        }
    } else {
        let j = choose|j: int| 0 <= j < es.len() && (#[trigger] es[j]).0 == k;
        assert(es.drop_last()[j].0 == k);
        lemma_recorded_keeps(es.drop_last(), k);
        let m = choose|m: int| 0 <= m < prev.len() && (#[trigger] prev[m]).0 == k;
        match key_index(prev, k2) {
            Some(i) => { assert(prev.update(i, (k2, v))[m].0 == k); },
            None => { assert(prev.push((k2, v))[m].0 == k); },
        }
    }
}

/// Every output of every direct dependency is hashed: when `deps(t, d)`, `outputs(d, o)` and
/// `file_hash(o, h)` facts are read, the entries collected for `t`, and the hashes recorded
/// from them, hold one for `o`.
pub proof fn law_dependency_outputs_are_hashed(
    t: Seq<char>, sfs: Seq<SpecFact>, bfs: Seq<SpecFact>, hfs: Seq<SpecFact>, afs: Seq<SpecFact>,
    tfs: Seq<SpecFact>, dfs: Seq<SpecFact>, ofs: Seq<SpecFact>,
    dep: SpecFact, out: SpecFact, hash: SpecFact,
)
    requires
        dfs.contains(dep),
        ofs.contains(out),
        hfs.contains(hash),
        string_at(dep, 0) == Some(t),
        string_at(dep, 1) is Some,
        string_at(out, 0) == string_at(dep, 1),
        string_at(out, 1) is Some,
        string_at(hash, 0) == string_at(out, 1),
        string_at(hash, 1) is Some,
    ensures
        dep_outputs(second_where(dfs, t), ofs).contains(string_at(out, 1)->0),
        has_key(hash_entries(t, sfs, bfs, hfs, afs, tfs, dfs, ofs), string_at(out, 1)->0),
        has_key(recorded(hash_entries(t, sfs, bfs, hfs, afs, tfs, dfs, ofs)), string_at(out, 1)->0),
{
    let d = string_at(dep, 1)->0;
    let o = string_at(out, 1)->0;
    lemma_second_where_has(dfs, t, dep);
    lemma_second_where_has(ofs, d, out);
    lemma_dep_outputs_has(second_where(dfs, t), ofs, d, o);
    lemma_second_where_has(hfs, o, hash);
    let dk = known_hashes(dep_outputs(second_where(dfs, t), ofs), hfs);
    lemma_known_hashes_has(dep_outputs(second_where(dfs, t), ofs), hfs, o);
    let front = known_hashes(second_where(sfs + bfs, t), hfs)
        + seq![("__attrs__"@, attrs_digest(attr_pairs_of(afs, t)))]
        + tool_entries(tfs, t);
    let es = hash_entries(t, sfs, bfs, hfs, afs, tfs, dfs, ofs);
    assert(es == front + dk);
    let j = choose|j: int| 0 <= j < dk.len() && (#[trigger] dk[j]).0 == o;
    assert(es[front.len() + j] == dk[j]);
    assert(has_key(es, o));
    lemma_recorded_keeps(es, o);
}

} // verus!
