use vstd::prelude::*;
use crate::text::{str_to_string, str_eq};
use crate::datalog::types::{Value, SpecValue, Fact, SpecFact, Rule, SpecRule, SourceLocation, facts_view, rules_view, copy_string};
use crate::datalog::store::strings_view;
use crate::datalog::semantics::string_at;
use crate::datalog::eval::string_at_exec;
use crate::datalog::globs::{glob_valid, glob_matches, compile_glob, glob_pattern_matches};
use crate::datalog::locations::{Locations, keys_distinct, assoc_map, entry_view, lemma_assoc_push};
use crate::datalog::parser::program_spec;
use crate::datalog::labels::{parse_program_with_file, rule_locations, fact_locations};
use crate::cli::hashes::{hash_fact, hex16, xxh3_of, file_hash_fact};

verus! {

/// The tools looked for on the `PATH`, in order.
pub open spec fn known_tools() -> Seq<Seq<char>> {
    seq![
        "cargo"@, "rustc"@, "gcc"@, "g++"@, "clang"@, "clang++"@, "go"@, "python3"@, "node"@,
        "echo"@, "cat"@, "touch"@, "cp"@, "mkdir"@,
    ]
}

/// Finds the tools that builds may use.
pub struct ToolchainScanner {
    tools: Vec<String>,
}

impl ToolchainScanner {
    /// The tools it looks for.
    pub closed spec fn view(&self) -> Seq<Seq<char>> {
        strings_view(self.tools@)
    }

    /// A scanner of the known tools (see `known_tools`).
    pub fn new() -> (r: Self)
        ensures
            r@ == known_tools(),
    {
        let names: Vec<&str> = vec![
            "cargo", "rustc", "gcc", "g++", "clang", "clang++", "go", "python3", "node",
            "echo", "cat", "touch", "cp", "mkdir",
        ];
        let mut tools: Vec<String> = Vec::new();
        let mut i: usize = 0;
        while i < names.len()
            invariant
                i <= names@.len(),
                strings_view(tools@) == names@.take(i as int).map_values(|n: &str| n@),
            decreases names@.len() - i,
        {
            let ghost prev = strings_view(tools@);
            tools.push(str_to_string(names[i]));
            i = i + 1;
            assert(strings_view(tools@) =~= prev.push(names@[i - 1]@));
            assert(names@.take(i as int).map_values(|n: &str| n@) =~= names@.take(i - 1).map_values(|n: &str| n@).push(names@[i - 1]@));
        }
        assert(names@.take(i as int) =~= names@);
        assert(names@.map_values(|n: &str| n@) =~= known_tools());
        ToolchainScanner { tools }
    }

    /// The tools it looks for, in order.
    pub fn tools(&self) -> (r: &Vec<String>)
        ensures
            strings_view(r@) == self@,
    {
        &self.tools
    }
}

pub open spec fn tool_available_fact(tool: Seq<char>, path: Seq<char>, version: Seq<char>) -> SpecFact {
    SpecFact {
        predicate: "tool_available"@,
        args: seq![SpecValue::Str(tool), SpecValue::Str(path), SpecValue::Str(version)],
    }
}

/// The fact that `tool` was found at `path` with the given version text.
pub fn tool_fact(tool: &str, path: &str, version: &str) -> (r: Fact)
    ensures
        r@ == tool_available_fact(tool@, path@, version@),
{
    let mut args: Vec<Value> = Vec::new();
    args.push(Value::String(str_to_string(tool)));
    args.push(Value::String(str_to_string(path)));
    args.push(Value::String(str_to_string(version)));
    let f = Fact { predicate: str_to_string("tool_available"), args };
    assert(f@.args =~= seq![SpecValue::Str(tool@), SpecValue::Str(path@), SpecValue::Str(version@)]);
    f
}

pub open spec fn glob_fact(pattern: Seq<char>, path: Seq<char>) -> SpecFact {
    SpecFact { predicate: "glob"@, args: seq![SpecValue::Str(pattern), SpecValue::Str(path)] }
}

/// The `glob(pattern, path)` facts: one for each `file_exists` fact whose path the pattern,
/// when valid, matches, in order.
pub open spec fn glob_facts(fs: Seq<SpecFact>, pattern: Seq<char>) -> Seq<SpecFact>
    decreases fs.len(),
{
    if fs.len() == 0 {
        Seq::empty()
    } else {
        let prev = glob_facts(fs.drop_last(), pattern);
        let f = fs.last();
        if f.predicate == "file_exists"@ && string_at(f, 0) is Some && glob_valid(pattern)
            && glob_matches(pattern, string_at(f, 0)->0) {
            prev.push(glob_fact(pattern, string_at(f, 0)->0))
        } else {
            prev
        }
    }
}

/// The glob facts of the existing files that `pattern` matches (see `glob_facts`).
pub fn generate_glob_facts(file_facts: &Vec<Fact>, pattern: &str) -> (r: Vec<Fact>)
    ensures
        facts_view(r@) == glob_facts(facts_view(file_facts@), pattern@),
{
    let ghost fv = facts_view(file_facts@);
    let compiled = compile_glob(pattern);
    let mut out: Vec<Fact> = Vec::new();
    let mut k: usize = 0;
    assert(fv.take(0) =~= Seq::<SpecFact>::empty());
    assert(facts_view(out@) =~= Seq::<SpecFact>::empty());
    while k < file_facts.len()
        invariant
            k <= file_facts@.len(),
            fv == facts_view(file_facts@),
            compiled is Some <==> glob_valid(pattern@),
            compiled matches Some(g) ==> g.text() == pattern@,
            facts_view(out@) == glob_facts(fv.take(k as int), pattern@),
        decreases file_facts@.len() - k,
    {
        assert(fv.take(k + 1).drop_last() =~= fv.take(k as int));
        let f = &file_facts[k];
        assert(fv.take(k + 1).last() == f@);
        if str_eq(f.predicate.as_str(), "file_exists") {
            match (string_at_exec(f, 0), &compiled) {
                (Some(path), Some(g)) => {
                    if glob_pattern_matches(g, path.as_str()) {
                        let mut args: Vec<Value> = Vec::new();
                        args.push(Value::String(str_to_string(pattern)));
                        args.push(Value::String(copy_string(path)));
                        let gf = Fact { predicate: str_to_string("glob"), args };
                        assert(gf@.args =~= seq![SpecValue::Str(pattern@), SpecValue::Str(path@)]);
                        let ghost prev = facts_view(out@);
                        out.push(gf);
                        assert(facts_view(out@) =~= prev.push(glob_fact(pattern@, path@)));
                    }
                },
                _ => {},
            }
        }
        k = k + 1;
    }
    assert(fv.take(k as int) =~= fv);
    out
}

/// The facts that scanning a file gives: that it exists, when it was last modified (in
/// seconds since the epoch) when that is known, and the hash of its contents when they could
/// be read.
pub open spec fn scanned_facts(path: Seq<char>, modified: Option<i64>, contents: Option<Seq<u8>>) -> Seq<SpecFact> {
    seq![SpecFact { predicate: "file_exists"@, args: seq![SpecValue::Str(path)] }]
        + match modified {
            Some(m) => seq![SpecFact { predicate: "file_modified"@, args: seq![SpecValue::Str(path), SpecValue::Int(m)] }],
            None => Seq::empty(),
        }
        + match contents {
            Some(c) => seq![hash_fact(path, hex16(xxh3_of(c)))],
            None => Seq::empty(),
        }
}

/// The bytes read, if any.
pub open spec fn bytes_view(contents: Option<&[u8]>) -> Option<Seq<u8>> {
    match contents {
        Some(c) => Some(c@),
        None => None,
    }
}

/// The facts of one scanned file (see `scanned_facts`).
pub fn scan_file_facts(path: &str, modified: Option<i64>, contents: Option<&[u8]>) -> (r: Vec<Fact>)
    ensures
        facts_view(r@) == scanned_facts(path@, modified, bytes_view(contents)),
{
    let mut out: Vec<Fact> = Vec::new();
    let mut args: Vec<Value> = Vec::new();
    args.push(Value::String(str_to_string(path)));
    let e = Fact { predicate: str_to_string("file_exists"), args };
    assert(e@.args =~= seq![SpecValue::Str(path@)]);
    out.push(e);
    let ghost after_exists = facts_view(out@);
    match modified {
        Some(m) => {
            let mut margs: Vec<Value> = Vec::new();
            margs.push(Value::String(str_to_string(path)));
            margs.push(Value::Integer(m));
            let mf = Fact { predicate: str_to_string("file_modified"), args: margs };
            assert(mf@.args =~= seq![SpecValue::Str(path@), SpecValue::Int(m)]);
            out.push(mf);
        },
        None => {},
    }
    let ghost after_modified = facts_view(out@);
    match contents {
        Some(c) => {
            let hf = file_hash_fact(path, c);
            out.push(hf);
        },
        None => {},
    }
    proof {
        assert(facts_view(out@) =~= scanned_facts(path@, modified, bytes_view(contents)));
    }
    out
}

/// The prelude files, in the order in which they are loaded.
pub open spec fn prelude_file_names() -> Seq<Seq<char>> {
    seq![
        "aliases.datalog"@, "computed_attributes.datalog"@, "dependency_resolution.datalog"@,
        "engine_config.datalog"@, "external_data.datalog"@, "git_diff.datalog"@,
        "glob_support.datalog"@, "graph_generation.datalog"@, "license_validation.datalog"@,
        "needs_rebuild.datalog"@, "ownership.datalog"@, "patterns.datalog"@,
        "query_helpers.datalog"@, "toolchain_discovery.datalog"@,
    ]
}

/// The names of the prelude files (see `prelude_file_names`).
pub fn prelude_files() -> (r: Vec<String>)
    ensures
        strings_view(r@) == prelude_file_names(),
{
    let names: Vec<&str> = vec![
        "aliases.datalog", "computed_attributes.datalog", "dependency_resolution.datalog",
        "engine_config.datalog", "external_data.datalog", "git_diff.datalog",
        "glob_support.datalog", "graph_generation.datalog", "license_validation.datalog",
        "needs_rebuild.datalog", "ownership.datalog", "patterns.datalog",
        "query_helpers.datalog", "toolchain_discovery.datalog",
    ];
    let mut out: Vec<String> = Vec::new();
    let mut i: usize = 0;
    while i < names.len()
        invariant
            i <= names@.len(),
            strings_view(out@) == names@.take(i as int).map_values(|n: &str| n@),
        decreases names@.len() - i,
    {
        let ghost prev = strings_view(out@);
        out.push(str_to_string(names[i]));
        i = i + 1;
        assert(strings_view(out@) =~= prev.push(names@[i - 1]@));
        assert(names@.take(i as int).map_values(|n: &str| n@) =~= names@.take(i - 1).map_values(|n: &str| n@).push(names@[i - 1]@));
    }
    assert(names@.take(i as int) =~= names@);
    assert(names@.map_values(|n: &str| n@) =~= prelude_file_names());
    out
}

pub type SpecLocs = Map<Seq<char>, (Seq<char>, nat)>;

/// The prelude that the files `(name, content)` give: the facts and rules of each file that
/// parses, in order, the places their names are declared (a later file's place replacing an
/// earlier one's), and the name of each file that does not parse with the parse error.
pub open spec fn prelude_of(files: Seq<(Seq<char>, Seq<char>)>) -> (Seq<SpecFact>, Seq<SpecRule>, SpecLocs, Seq<(Seq<char>, Seq<char>)>)
    decreases files.len(),
{
    if files.len() == 0 {
        (Seq::empty(), Seq::empty(), Map::empty(), Seq::empty())
    } else {
        let (fs, rs, locs, failed) = prelude_of(files.drop_last());
        let (name, content) = files.last();
        match program_spec(content) {
            Ok((nfs, nrs)) => (fs + nfs, rs + nrs,
                locs.union_prefer_right(rule_locations(nrs, content, "prelude"@, fact_locations(nfs, content, "prelude"@, "//"@))),
                failed),
            Err(e) => (fs, rs, locs, failed.push((name, e))),
        }
    }
}

pub open spec fn files_view(files: Seq<(String, String)>) -> Seq<(Seq<char>, Seq<char>)> {
    files.map_values(|f: (String, String)| (f.0@, f.1@))
}

/// Adds the recorded places of `more` to `all`, those of `more` replacing those of `all`.
fn merge_locations(all: &mut Locations, more: &Locations)
    ensures
        final(all)@ == old(all)@.union_prefer_right(more@),
{
    let pairs = more.pairs();
    let ghost ev = more.entries_view();
    let ghost start = all@;
    let mut i: usize = 0;
    assert(assoc_map(ev.take(0)) =~= Map::<Seq<char>, (Seq<char>, nat)>::empty());
    assert(start =~= start.union_prefer_right(assoc_map(ev.take(0))));
    while i < pairs.len()
        invariant
            i <= pairs@.len(),
            pairs@.map_values(|e: (String, SourceLocation)| entry_view(e)) == ev,
            keys_distinct(ev),
            assoc_map(ev) == more@,
            all@ == start.union_prefer_right(assoc_map(ev.take(i as int))),
        decreases pairs@.len() - i,
    {
        let e = &pairs[i];
        assert(ev[i as int] == entry_view(*e));
        proof {
            assert(keys_distinct(ev.take(i as int)));
            assert(!crate::datalog::locations::has_key(ev.take(i as int), ev[i as int].0)) by {
                if crate::datalog::locations::has_key(ev.take(i as int), ev[i as int].0) {
                    let j = choose|j: int| 0 <= j < ev.take(i as int).len() && ev.take(i as int)[j].0 == ev[i as int].0;
                    assert(ev[j].0 == ev[i as int].0);
                }
            }
            lemma_assoc_push(ev.take(i as int), ev[i as int].0, ev[i as int].1);
            assert(ev.take(i + 1) =~= ev.take(i as int).push((ev[i as int].0, ev[i as int].1)));
        }
        all.insert(copy_string(&e.0), SourceLocation { file: copy_string(&e.1.file), line: e.1.line });
        i = i + 1;
        assert(all@ =~= start.union_prefer_right(assoc_map(ev.take(i as int))));
    }
    assert(ev.take(i as int) =~= ev);
}

/// The prelude that the files give (see `prelude_of`).
pub fn get_prelude_with_locations(files: &Vec<(String, String)>) -> (r: (Vec<Fact>, Vec<Rule>, Locations, Vec<(String, String)>))
    ensures
        prelude_of(files_view(files@)) == (facts_view(r.0@), rules_view(r.1@), r.2@, files_view(r.3@)),
{
    let ghost fv = files_view(files@);
    let mut facts: Vec<Fact> = Vec::new();
    let mut rules: Vec<Rule> = Vec::new();
    let mut locs = Locations::new();
    let mut failed: Vec<(String, String)> = Vec::new();
    let mut k: usize = 0;
    assert(fv.take(0) =~= Seq::<(Seq<char>, Seq<char>)>::empty());
    assert(facts_view(facts@) =~= Seq::<SpecFact>::empty());
    assert(rules_view(rules@) =~= Seq::<SpecRule>::empty());
    assert(files_view(failed@) =~= Seq::<(Seq<char>, Seq<char>)>::empty());
    while k < files.len()
        invariant
            k <= files@.len(),
            fv == files_view(files@),
            prelude_of(fv.take(k as int)) == (facts_view(facts@), rules_view(rules@), locs@, files_view(failed@)),
        decreases files@.len() - k,
    {
        assert(fv.take(k + 1).drop_last() =~= fv.take(k as int));
        assert(fv.take(k + 1).last() == (files@[k as int].0@, files@[k as int].1@));
        match parse_program_with_file(files[k].1.as_str(), "prelude") {
            Ok((mut nfs, mut nrs, nlocs)) => {
                let ghost (f0, r0, a0, b0) = (facts_view(facts@), rules_view(rules@), facts_view(nfs@), rules_view(nrs@));
                facts.append(&mut nfs);
                rules.append(&mut nrs);
                assert(facts_view(facts@) =~= f0 + a0);
                assert(rules_view(rules@) =~= r0 + b0);
                merge_locations(&mut locs, &nlocs);
            },
            Err(e) => {
                let ghost prev = files_view(failed@);
                failed.push((copy_string(&files[k].0), e));
                assert(files_view(failed@) =~= prev.push((files@[k as int].0@, e@)));
            },
        }
        k = k + 1;
    }
    assert(fv.take(k as int) =~= fv);
    (facts, rules, locs, failed)
}

/// Whether a fact is `file_exists(p)` for a path `p` that the pattern, when valid, matches.
pub open spec fn matched_file(f: SpecFact, pattern: Seq<char>) -> bool {
    f.predicate == "file_exists"@ && string_at(f, 0) is Some && glob_valid(pattern)
        && glob_matches(pattern, string_at(f, 0)->0)
}

/// The number of facts that are existing files the pattern matches.
pub open spec fn matched_count(fs: Seq<SpecFact>, pattern: Seq<char>) -> nat {
    fs.filter(|f: SpecFact| matched_file(f, pattern)).len()
}

/// The glob facts of a pattern: one `glob(pattern, p)` for each `file_exists(p)` fact whose
/// path the pattern matches (as many as there are such facts), and nothing else.
pub proof fn law_glob_facts_cover_matches(fs: Seq<SpecFact>, pattern: Seq<char>)
    ensures
        glob_facts(fs, pattern).len() == matched_count(fs, pattern),
        forall|k: int| 0 <= k < fs.len() && matched_file(#[trigger] fs[k], pattern)
            ==> glob_facts(fs, pattern).contains(glob_fact(pattern, string_at(fs[k], 0)->0)),
        forall|i: int| 0 <= i < glob_facts(fs, pattern).len() ==> exists|k: int| 0 <= k < fs.len()
            && matched_file(#[trigger] fs[k], pattern)
            && #[trigger] glob_facts(fs, pattern)[i] == glob_fact(pattern, string_at(fs[k], 0)->0),
    decreases fs.len(),
{
    reveal_with_fuel(Seq::filter, 1);
    let g = glob_facts(fs, pattern);
    if fs.len() == 0 {
        assert(fs.filter(|f: SpecFact| matched_file(f, pattern)) =~= Seq::<SpecFact>::empty());
    } else {
        let d = fs.drop_last();
        let f = fs.last();
        law_glob_facts_cover_matches(d, pattern);
        let prev = glob_facts(d, pattern);
        assert(fs.filter(|f: SpecFact| matched_file(f, pattern)) == {
            let pf = d.filter(|f: SpecFact| matched_file(f, pattern));
            if matched_file(f, pattern) { pf.push(f) } else { pf }
        });
        assert forall|k: int| 0 <= k < fs.len() && matched_file(#[trigger] fs[k], pattern)
            implies g.contains(glob_fact(pattern, string_at(fs[k], 0)->0)) by {
            if k == fs.len() - 1 {
                assert(g[prev.len() as int] == glob_fact(pattern, string_at(fs[k], 0)->0));
            } else {
                assert(d[k] == fs[k]);
                assert(prev.contains(glob_fact(pattern, string_at(d[k], 0)->0)));
                let m = choose|m: int| 0 <= m < prev.len() && prev[m] == glob_fact(pattern, string_at(d[k], 0)->0);
                assert(g[m] == prev[m]);
            }
        }
        assert forall|i: int| 0 <= i < g.len() implies exists|k: int| 0 <= k < fs.len()
            && matched_file(#[trigger] fs[k], pattern)
            && #[trigger] g[i] == glob_fact(pattern, string_at(fs[k], 0)->0) by {
            if i < prev.len() {
                assert(g[i] == prev[i]);
                let k = choose|k: int| 0 <= k < d.len() && matched_file(#[trigger] d[k], pattern)
                    && prev[i] == glob_fact(pattern, string_at(d[k], 0)->0);
                assert(fs[k] == d[k]);
            } else {
                assert(fs[fs.len() - 1] == f);
            }
        }
    }
}

} // verus!
