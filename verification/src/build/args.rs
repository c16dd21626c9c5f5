use vstd::prelude::*;
use crate::text::{str_eq, str_contains, unicode_whitespace, char_is_whitespace, i32_value, parse_i32, string_from_range, str_to_string, contains_seq, matches_at, contains_chars, str_chars, string_chars, string_from_chars, join, join_strings};
use crate::datalog::types::{TargetLabel, copy_string};
use crate::datalog::store::strings_view;
use crate::datalog::eval::seq_contains_string;

verus! {

/// `s` with every occurrence of `pat`, taken from left to right without overlap, replaced
/// by `rep` (what `str::replace` gives for a pattern that is not empty).
pub open spec fn replace_all(s: Seq<char>, pat: Seq<char>, rep: Seq<char>) -> Seq<char>
    decreases s.len(),
{
    if pat.len() == 0 || s.len() < pat.len() {
        s
    } else if s.take(pat.len() as int) == pat {
        rep + replace_all(s.skip(pat.len() as int), pat, rep)
    } else {
        seq![s[0]] + replace_all(s.skip(1), pat, rep)
    }
}

/// The text of a target label, `package:target`.
pub open spec fn label_text(t: (Seq<char>, Seq<char>)) -> Seq<char> {
    t.0 + ":"@ + t.1
}

/// A template with `{output}`, then `{target}`, then (when it still occurs) `{sources}`
/// replaced: by the output path, the target's label, and the sources joined by spaces.
pub open spec fn expanded(template: Seq<char>, sources: Seq<Seq<char>>, output: Seq<char>, target: Seq<char>) -> Seq<char> {
    let with_output = replace_all(template, "{output}"@, output);
    let with_target = replace_all(with_output, "{target}"@, target);
    if contains_seq(with_target, "{sources}"@) {
        replace_all(with_target, "{sources}"@, join(sources, " "@))
    } else {
        with_target
    }
}

fn extend_chars(out: &mut Vec<char>, cs: &Vec<char>)
    ensures
        final(out)@ == old(out)@ + cs@,
{
    let ghost start = out@;
    let mut i: usize = 0;
    while i < cs.len()
        invariant
            i <= cs@.len(),
            out@ == start + cs@.take(i as int),
        decreases cs@.len() - i,
    {
        out.push(cs[i]);
        i = i + 1;
        assert(out@ =~= start + cs@.take(i as int));
    }
    assert(cs@.take(i as int) =~= cs@);
}

/// Replaces every occurrence of `pat` in `s` by `rep`.
fn replace_chars(s: &Vec<char>, pat: &Vec<char>, rep: &Vec<char>) -> (r: Vec<char>)
    requires
        pat@.len() > 0,
    ensures
        r@ == replace_all(s@, pat@, rep@),
{
    let n = s.len();
    let plen = pat.len();
    let mut out: Vec<char> = Vec::new();
    let mut i: usize = 0;
    assert(s@.skip(0) =~= s@);
    assert(out@ + replace_all(s@, pat@, rep@) =~= replace_all(s@, pat@, rep@));
    while i < n
        invariant
            n == s@.len(),
            plen == pat@.len(),
            plen > 0,
            i <= n,
            out@ + replace_all(s@.skip(i as int), pat@, rep@) == replace_all(s@, pat@, rep@),
        decreases n - i,
    {
        let ghost rest = s@.skip(i as int);
        if matches_at(s.as_slice(), pat.as_slice(), i) {
            assert(rest.take(plen as int) =~= s@.subrange(i as int, i + plen));
            assert(rest.skip(plen as int) =~= s@.skip(i + plen));
            let ghost before = out@;
            extend_chars(&mut out, rep);
            assert(out@ + replace_all(s@.skip(i + plen), pat@, rep@) =~= before + replace_all(rest, pat@, rep@));
            i = i + plen;
        } else {
            assert(rest.skip(1) =~= s@.skip(i + 1));
            proof {
                if rest.len() >= plen as nat {
                    assert(rest.take(plen as int) != pat@) by {
                        assert(rest.take(plen as int) =~= s@.subrange(i as int, i + plen));
                    }
                } else {
                    assert(rest =~= seq![rest[0]] + rest.skip(1));
                }
            }
            assert(replace_all(rest, pat@, rep@) == seq![s@[i as int]] + replace_all(s@.skip(i + 1), pat@, rep@));
            let ghost before = out@;
            out.push(s[i]);
            assert(out@ + replace_all(s@.skip(i + 1), pat@, rep@) =~= before + replace_all(rest, pat@, rep@));
            i = i + 1;
        }
    }
    assert(s@.skip(n as int) =~= Seq::<char>::empty());
    assert(out@ + Seq::<char>::empty() =~= out@);
    out
}

/// Replaces every occurrence of the text `pat` in `s` by `rep`.
pub(crate) fn replace_text(s: &String, pat: &str, rep: &String) -> (r: String)
    requires
        pat@.len() > 0,
    ensures
        r@ == replace_all(s@, pat@, rep@),
{
    let cs = string_chars(s);
    let ps = str_chars(pat);
    let rs = string_chars(rep);
    let out = replace_chars(&cs, &ps, &rs);
    string_from_chars(out.as_slice())
}

/// The template with its placeholders filled in (see `expanded`).
pub fn expand_template(template: &str, sources: &Vec<String>, output: &String, target: &TargetLabel) -> (r: String)
    ensures
        r@ == expanded(template@, sources@.map_values(|s: String| s@), output@, label_text(target@)),
{
    proof {
        reveal_strlit("{output}");
        reveal_strlit("{target}");
        reveal_strlit("{sources}");
    }
    let t = crate::text::str_to_string(template);
    let with_output = replace_text(&t, "{output}", output);
    let label = target.to_string();
    let with_target = replace_text(&with_output, "{target}", &label);
    let wcs = string_chars(&with_target);
    let scs = str_chars("{sources}");
    if contains_chars(wcs.as_slice(), scs.as_slice()) {
        let joined = join_strings(sources, " ");
        replace_text(&with_target, "{sources}", &joined)
    } else {
        with_target
    }
}

/// How many characters at the start of `s` are not whitespace.
pub open spec fn run_len(s: Seq<char>) -> nat
    decreases s.len(),
{
    if s.len() == 0 || unicode_whitespace(s[0]) {
        0
    } else {
        1 + run_len(s.skip(1))
    }
}

/// A run is no longer than the text, and not empty where the text starts with a character
/// that is not whitespace.
pub proof fn lemma_run_len_bound(s: Seq<char>)
    ensures
        run_len(s) <= s.len(),
        s.len() > 0 && !unicode_whitespace(s[0]) ==> run_len(s) > 0,
    decreases s.len(),
{
    if s.len() > 0 && !unicode_whitespace(s[0]) {
        lemma_run_len_bound(s.skip(1));
    }
}

/// The words of `s`: its maximal runs of characters that are not whitespace, in order
/// (what `str::split_whitespace` gives).
pub open spec fn words(s: Seq<char>) -> Seq<Seq<char>>
    decreases s.len(),
{
    if s.len() == 0 {
        Seq::empty()
    } else if unicode_whitespace(s[0]) {
        words(s.skip(1))
    } else {
        proof { lemma_run_len_bound(s); }
        seq![s.take(run_len(s) as int)] + words(s.skip(run_len(s) as int))
    }
}

proof fn lemma_run_len_at(s: Seq<char>, i: int, j: int)
    requires
        0 <= i <= j <= s.len(),
        forall|k: int| i <= k < j ==> !unicode_whitespace(#[trigger] s[k]),
        j == s.len() || unicode_whitespace(s[j]),
    ensures
        run_len(s.skip(i)) == j - i,
    decreases j - i,
{
    if i < j {
        assert(s.skip(i).skip(1) =~= s.skip(i + 1));
        lemma_run_len_at(s, i + 1, j);
    }
}

/// The words of `cs` (see `words`).
fn split_words(cs: &Vec<char>) -> (r: Vec<String>)
    ensures
        strings_view(r@) == words(cs@),
{
    let n = cs.len();
    let mut out: Vec<String> = Vec::new();
    let mut i: usize = 0;
    assert(cs@.skip(0) =~= cs@);
    assert(strings_view(out@) + words(cs@) =~= words(cs@));
    while i < n
        invariant
            n == cs@.len(),
            i <= n,
            strings_view(out@) + words(cs@.skip(i as int)) == words(cs@),
        decreases n - i,
    {
        let ghost rest = cs@.skip(i as int);
        if char_is_whitespace(cs[i]) {
            assert(rest.skip(1) =~= cs@.skip(i + 1));
            i = i + 1;
        } else {
            let mut j: usize = i;
            while j < n && !char_is_whitespace(cs[j])
                invariant
                    n == cs@.len(),
                    i <= j <= n,
                    forall|k: int| i <= k < j ==> !unicode_whitespace(#[trigger] cs@[k]),
                decreases n - j,
            {
                j = j + 1;
            }
            proof { lemma_run_len_at(cs@, i as int, j as int); }
            let w = string_from_range(cs.as_slice(), i, j);
            assert(rest.take(j - i) =~= cs@.subrange(i as int, j as int));
            assert(rest.skip(j - i) =~= cs@.skip(j as int));
            let ghost before = strings_view(out@);
            out.push(w);
            assert(strings_view(out@) =~= before.push(w@));
            assert(before.push(w@) + words(cs@.skip(j as int)) =~= before + (seq![w@] + words(cs@.skip(j as int))));
            i = j;
        }
    }
    assert(cs@.skip(n as int) =~= Seq::<char>::empty());
    assert(strings_view(out@) + Seq::<Seq<char>>::empty() =~= strings_view(out@));
    out
}

pub open spec fn pairs_view(s: Seq<(String, String)>) -> Seq<(Seq<char>, Seq<char>)> {
    s.map_values(|p: (String, String)| (p.0@, p.1@))
}

/// Whether the attribute `a` sorts after `b`: attributes with a numeric key come first, in
/// the order of their numbers; the others compare equal.
pub open spec fn sorts_after(a: (Seq<char>, Seq<char>), b: (Seq<char>, Seq<char>)) -> bool {
    match (i32_value(a.0), i32_value(b.0)) {
        (Some(x), Some(y)) => x > y,
        (None, Some(_)) => true,
        _ => false,
    }
}

/// `x` put into `sorted` behind every entry that does not sort after it.
pub open spec fn insert_sorted(sorted: Seq<(Seq<char>, Seq<char>)>, x: (Seq<char>, Seq<char>)) -> Seq<(Seq<char>, Seq<char>)>
    decreases sorted.len(),
{
    if sorted.len() == 0 {
        seq![x]
    } else if sorts_after(sorted.last(), x) {
        insert_sorted(sorted.drop_last(), x).push(sorted.last())
    } else {
        sorted.push(x)
    }
}

/// The attributes stably sorted by `sorts_after`.
pub open spec fn sorted_attrs(s: Seq<(Seq<char>, Seq<char>)>) -> Seq<(Seq<char>, Seq<char>)>
    decreases s.len(),
{
    if s.len() == 0 {
        Seq::empty()
    } else {
        insert_sorted(sorted_attrs(s.drop_last()), s.last())
    }
}

fn sorts_after_exec(a: &(String, String), b: &(String, String)) -> (r: bool)
    ensures
        r == sorts_after((a.0@, a.1@), (b.0@, b.1@)),
{
    match (parse_i32(a.0.as_str()), parse_i32(b.0.as_str())) {
        (Some(x), Some(y)) => x > y,
        (None, Some(_)) => true,
        _ => false,
    }
}

/// The attributes stably sorted (see `sorted_attrs`).
fn sort_attrs(attrs: &Vec<(String, String)>) -> (r: Vec<(String, String)>)
    ensures
        pairs_view(r@) == sorted_attrs(pairs_view(attrs@)),
{
    let ghost av = pairs_view(attrs@);
    let mut out: Vec<(String, String)> = Vec::new();
    let mut k: usize = 0;
    assert(av.take(0) =~= Seq::<(Seq<char>, Seq<char>)>::empty());
    assert(pairs_view(out@) =~= Seq::<(Seq<char>, Seq<char>)>::empty());
    while k < attrs.len()
        invariant
            k <= attrs@.len(),
            av == pairs_view(attrs@),
            pairs_view(out@) == sorted_attrs(av.take(k as int)),
        decreases attrs@.len() - k,
    {
        assert(av.take(k + 1).drop_last() =~= av.take(k as int));
        let x = (copy_string(&attrs[k].0), copy_string(&attrs[k].1));
        let ghost xv = (x.0@, x.1@);
        assert(av.take(k + 1).last() == xv);
        let ghost ov = pairs_view(out@);
        let mut j: usize = out.len();
        assert(ov.take(j as int) =~= ov);
        assert(ov.skip(j as int) =~= Seq::<(Seq<char>, Seq<char>)>::empty());
        while j > 0 && sorts_after_exec(&out[j - 1], &x)
            invariant
                j <= out@.len(),
                ov == pairs_view(out@),
                xv == (x.0@, x.1@),
                insert_sorted(ov, xv) == insert_sorted(ov.take(j as int), xv) + ov.skip(j as int),
            decreases j,
        {
            assert(ov.take(j as int).drop_last() =~= ov.take(j - 1));
            assert(ov.take(j as int).last() == ov[j - 1]);
            assert(ov.skip(j - 1) =~= seq![ov[j - 1]] + ov.skip(j as int));
            assert(insert_sorted(ov.take(j - 1), xv).push(ov[j - 1]) + ov.skip(j as int)
                =~= insert_sorted(ov.take(j - 1), xv) + ov.skip(j - 1));
            j = j - 1;
        }
        proof {
            if j == 0 {
                assert(ov.take(0) =~= Seq::<(Seq<char>, Seq<char>)>::empty());
            } else {
                assert(ov.take(j as int).last() == ov[j - 1]);
            }
        }
        out.insert(j, x);
        assert(pairs_view(out@) =~= ov.take(j as int).push(xv) + ov.skip(j as int));
        assert(insert_sorted(ov.take(j as int), xv) == ov.take(j as int).push(xv));
        k = k + 1;
    }
    assert(av.take(k as int) =~= av);
    out
}

/// The arguments so far, and whether the sources were placed, after the attribute
/// `(key, value)`: a value that names the sources places them (behind the key when it is
/// `-c`); one that names the output places it (behind the key unless the key is a number);
/// a numeric key gives its expanded value alone; any other key gives itself (split into
/// words when it holds a space) and then its expanded value unless that is empty.
pub open spec fn arg_step(
    st: (Seq<Seq<char>>, bool),
    kv: (Seq<char>, Seq<char>),
    sources: Seq<Seq<char>>,
    output: Seq<char>,
    target: Seq<char>,
) -> (Seq<Seq<char>>, bool) {
    let (args, placed) = st;
    let (key, value) = kv;
    let x = expanded(value, sources, output, target);
    if value == "{sources}"@ || contains_seq(x, "{sources}"@) {
        ((if key == "-c"@ { args.push(key) } else { args }) + sources, true)
    } else if value == "{output}"@ || contains_seq(x, "{output}"@) {
        ((if i32_value(key) is None { args.push(key) } else { args }).push(output), placed)
    } else if i32_value(key) is Some {
        (args.push(x), placed)
    } else {
        let with_key = if contains_seq(key, " "@) { args + words(key) } else { args.push(key) };
        (if x.len() > 0 { with_key.push(x) } else { with_key }, placed)
    }
}

/// The arguments, and whether the sources were placed, after the attributes `attrs[..n]`.
pub open spec fn args_after(
    attrs: Seq<(Seq<char>, Seq<char>)>,
    n: int,
    sources: Seq<Seq<char>>,
    output: Seq<char>,
    target: Seq<char>,
) -> (Seq<Seq<char>>, bool)
    decreases n,
{
    if n <= 0 {
        (Seq::empty(), false)
    } else {
        arg_step(args_after(attrs, n - 1, sources, output, target), attrs[n - 1], sources, output, target)
    }
}

/// `args` with each of `sources[..n]` that it does not hold yet added, in order.
pub open spec fn with_sources(args: Seq<Seq<char>>, sources: Seq<Seq<char>>, n: int) -> Seq<Seq<char>>
    decreases n,
{
    if n <= 0 {
        args
    } else {
        let prev = with_sources(args, sources, n - 1);
        if prev.contains(sources[n - 1]) { prev } else { prev.push(sources[n - 1]) }
    }
}

/// The command line that the argument attributes give: the attributes in sorted order, then
/// the sources not placed yet, when no attribute placed them.
pub open spec fn command_args(
    attrs: Seq<(Seq<char>, Seq<char>)>,
    sources: Seq<Seq<char>>,
    output: Seq<char>,
    target: Seq<char>,
) -> Seq<Seq<char>> {
    let sorted = sorted_attrs(attrs);
    let (args, placed) = args_after(sorted, sorted.len() as int, sources, output, target);
    if placed { args } else { with_sources(args, sources, sources.len() as int) }
}

fn push_copies(out: &mut Vec<String>, ss: &Vec<String>)
    ensures
        strings_view(final(out)@) == strings_view(old(out)@) + strings_view(ss@),
{
    let ghost start = strings_view(out@);
    let mut i: usize = 0;
    while i < ss.len()
        invariant
            i <= ss@.len(),
            strings_view(out@) == start + strings_view(ss@).take(i as int),
        decreases ss@.len() - i,
    {
        let ghost prev = strings_view(out@);
        out.push(copy_string(&ss[i]));
        i = i + 1;
        assert(strings_view(out@) =~= prev.push(ss@[i - 1]@));
        assert(strings_view(ss@).take(i as int) =~= strings_view(ss@).take(i - 1).push(ss@[i - 1]@));
        assert(strings_view(out@) =~= start + strings_view(ss@).take(i as int));
    }
    assert(strings_view(ss@).take(i as int) =~= strings_view(ss@));
}

/// The arguments after one attribute (see `arg_step`).
fn arg_step_exec(
    args: &mut Vec<String>,
    placed: &mut bool,
    key: &String,
    value: &String,
    sources: &Vec<String>,
    output: &String,
    target: &TargetLabel,
)
    ensures
        (strings_view(final(args)@), *final(placed)) == arg_step((strings_view(old(args)@), *old(placed)), (key@, value@),
            strings_view(sources@), output@, label_text(target@)),
{
    proof {
        reveal_strlit("{sources}");
        reveal_strlit("{output}");
        reveal_strlit("-c");
        reveal_strlit(" ");
    }
    let ghost sv = strings_view(sources@);
    assert(sources@.map_values(|s: String| s@) == sv);
    let x = expand_template(value.as_str(), sources, output, target);
    let xcs = string_chars(&x);
    let is_sources = str_eq(value.as_str(), "{sources}") || contains_chars(xcs.as_slice(), str_chars("{sources}").as_slice());
    if is_sources {
        if str_eq(key.as_str(), "-c") {
            args.push(copy_string(key));
        }
        push_copies(args, sources);
        *placed = true;
        return;
    }
    let is_output = str_eq(value.as_str(), "{output}") || contains_chars(xcs.as_slice(), str_chars("{output}").as_slice());
    let numeric = parse_i32(key.as_str()).is_some();
    if is_output {
        if !numeric {
            args.push(copy_string(key));
        }
        args.push(copy_string(output));
    } else if numeric {
        args.push(x);
    } else {
        if str_contains(key.as_str(), " ") {
            let ws = split_words(&string_chars(key));
            push_copies(args, &ws);
        } else {
            args.push(copy_string(key));
        }
        if xcs.len() > 0 {
            args.push(x);
        }
    }
}

/// The command line for a target (see `command_args`).
pub fn build_args(arg_attrs: Vec<(String, String)>, sources: &Vec<String>, output: &String, target: &TargetLabel) -> (r: Vec<String>)
    ensures
        strings_view(r@) == command_args(pairs_view(arg_attrs@), strings_view(sources@), output@, label_text(target@)),
{
    let sorted = sort_attrs(&arg_attrs);
    let ghost so = pairs_view(sorted@);
    let ghost sv = strings_view(sources@);
    let ghost tv = label_text(target@);
    let mut args: Vec<String> = Vec::new();
    let mut placed = false;
    let mut k: usize = 0;
    assert(strings_view(args@) =~= Seq::<Seq<char>>::empty());
    while k < sorted.len()
        invariant
            k <= sorted@.len(),
            so == pairs_view(sorted@),
            sv == strings_view(sources@),
            tv == label_text(target@),
            (strings_view(args@), placed) == args_after(so, k as int, sv, output@, tv),
        decreases sorted@.len() - k,
    {
        assert(so[k as int] == (sorted@[k as int].0@, sorted@[k as int].1@));
        arg_step_exec(&mut args, &mut placed, &sorted[k].0, &sorted[k].1, sources, output, target);
        k = k + 1;
    }
    if placed {
        return args;
    }
    let ghost base = strings_view(args@);
    let mut i: usize = 0;
    while i < sources.len()
        invariant
            i <= sources@.len(),
            sv == strings_view(sources@),
            strings_view(args@) == with_sources(base, sv, i as int),
        decreases sources@.len() - i,
    {
        if !seq_contains_string(&args, &sources[i]) {
            let ghost prev = strings_view(args@);
            args.push(copy_string(&sources[i]));
            assert(strings_view(args@) =~= prev.push(sv[i as int]));
        }
        i = i + 1;
    }
    args
}

proof fn lemma_with_sources_shape(args: Seq<Seq<char>>, sources: Seq<Seq<char>>, n: int)
    requires
        0 <= n <= sources.len(),
    ensures ({
        let r = with_sources(args, sources, n);
        &&& r.len() >= args.len()
        &&& r.take(args.len() as int) == args
        &&& forall|i: int| args.len() <= i < r.len() ==> !args.contains(#[trigger] r[i]) && sources.take(n).contains(r[i])
        &&& forall|i: int, j: int| args.len() <= i < j < r.len() ==> r[i] != r[j]
        &&& forall|k: int| 0 <= k < n ==> r.contains(#[trigger] sources[k])
    }),
    decreases n,
{
    let r = with_sources(args, sources, n);
    if n == 0 {
        assert(args.take(args.len() as int) =~= args);
    } else {
        lemma_with_sources_shape(args, sources, n - 1);
        let prev = with_sources(args, sources, n - 1);
        let x = sources[n - 1];
        assert forall|i: int| args.len() <= i < prev.len() implies sources.take(n).contains(#[trigger] prev[i]) by {
            let st = sources.take(n - 1);
            let k = choose|k: int| 0 <= k < st.len() && #[trigger] st[k] == prev[i];
            assert(sources.take(n)[k] == prev[i]);
        }
        if !prev.contains(x) {
            assert(r == prev.push(x));
            assert(r.take(args.len() as int) =~= prev.take(args.len() as int));
            assert(!args.contains(x)) by {
                if args.contains(x) {
                    let k = choose|k: int| 0 <= k < args.len() && #[trigger] args[k] == x;
                    assert(prev.take(args.len() as int)[k] == x);
                    assert(prev[k] == x);
                }
            }
            assert(sources.take(n)[n - 1] == x);
            assert forall|i: int, j: int| args.len() <= i < j < r.len() implies r[i] != r[j] by {
                if j == r.len() - 1 {
                    assert(r[i] == prev[i]);
                    if r[i] == x { assert(prev.contains(x)); }
                }
            }
            assert(r[prev.len() as int] == x);
            assert forall|k: int| 0 <= k < n implies r.contains(#[trigger] sources[k]) by {
                if k < n - 1 {
                    let m = choose|m: int| 0 <= m < prev.len() && #[trigger] prev[m] == sources[k];
                    assert(r[m] == sources[k]);
                }
            }
        }
    }
}

/// The sources appended to a command line: it keeps the arguments in front, then holds
/// each source that they do not already hold, once; a source an argument already names is
/// never appended again, and every source ends up on the line.
pub proof fn law_sources_appended_once(args: Seq<Seq<char>>, sources: Seq<Seq<char>>)
    ensures ({
        let r = with_sources(args, sources, sources.len() as int);
        &&& r.take(args.len() as int) == args
        &&& forall|i: int| args.len() <= i < r.len() ==> !args.contains(#[trigger] r[i]) && sources.contains(r[i])
        &&& forall|i: int, j: int| args.len() <= i < j < r.len() ==> r[i] != r[j]
        &&& forall|k: int| 0 <= k < sources.len() ==> r.contains(#[trigger] sources[k])
    }),
{
    lemma_with_sources_shape(args, sources, sources.len() as int);
    assert(sources.take(sources.len() as int) =~= sources);
}

/// The command line of a target whose attributes do not place the sources: the attribute
/// arguments, then exactly the sources they do not already name, each once.
pub proof fn law_command_line_sources(
    attrs: Seq<(Seq<char>, Seq<char>)>,
    sources: Seq<Seq<char>>,
    output: Seq<char>,
    target: Seq<char>,
)
    requires
        !args_after(sorted_attrs(attrs), sorted_attrs(attrs).len() as int, sources, output, target).1,
    ensures ({
        let a = args_after(sorted_attrs(attrs), sorted_attrs(attrs).len() as int, sources, output, target).0;
        let r = command_args(attrs, sources, output, target);
        &&& r.take(a.len() as int) == a
        &&& forall|i: int| a.len() <= i < r.len() ==> !a.contains(#[trigger] r[i]) && sources.contains(r[i])
        &&& forall|i: int, j: int| a.len() <= i < j < r.len() ==> r[i] != r[j]
        &&& forall|k: int| 0 <= k < sources.len() ==> r.contains(#[trigger] sources[k])
    }),
{
    let a = args_after(sorted_attrs(attrs), sorted_attrs(attrs).len() as int, sources, output, target).0;
    law_sources_appended_once(a, sources);
}

} // verus!
