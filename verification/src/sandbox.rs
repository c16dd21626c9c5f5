use vstd::prelude::*;
use crate::build::args::label_text;
use crate::datalog::eval::seq_contains_string;
use crate::datalog::store::strings_view;
use crate::datalog::types::{copy_string, TargetLabel};
use crate::text::{contains_seq, push_all, push_string, str_chars, str_contains, string_from_range};

verus! {

/// The paths of `s`, each once, in the order in which they first occur.
pub open spec fn first_strings(s: Seq<Seq<char>>) -> Seq<Seq<char>>
    decreases s.len(),
{
    if s.len() == 0 {
        Seq::empty()
    } else {
        let prev = first_strings(s.drop_last());
        if prev.contains(s.last()) { prev } else { prev.push(s.last()) }
    }
}

/// The inputs that a sandbox links, each once, in the order in which they are listed.
pub fn unique_inputs(inputs: &Vec<String>) -> (r: Vec<String>)
    ensures
        strings_view(r@) == first_strings(strings_view(inputs@)),
{
    let ghost iv = strings_view(inputs@);
    let mut out: Vec<String> = Vec::new();
    let mut k: usize = 0;
    assert(iv.take(0) =~= Seq::<Seq<char>>::empty());
    assert(strings_view(out@) =~= Seq::<Seq<char>>::empty());
    while k < inputs.len()
        invariant
            k <= inputs@.len(),
            iv == strings_view(inputs@),
            strings_view(out@) == first_strings(iv.take(k as int)),
        decreases inputs@.len() - k,
    {
        assert(iv.take(k + 1).drop_last() =~= iv.take(k as int));
        assert(iv.take(k + 1).last() == inputs@[k as int]@);
        if !seq_contains_string(&out, &inputs[k]) {
            let ghost prev = out@;
            out.push(copy_string(&inputs[k]));
            assert(strings_view(out@) =~= strings_view(prev).push(inputs@[k as int]@));
        }
        k = k + 1;
    }
    assert(iv.take(k as int) =~= iv);
    out
}

/// The report of an input path that names a parent directory.
pub open spec fn parent_reference_text(target: (Seq<char>, Seq<char>), input: Seq<char>, root: Seq<char>) -> Seq<char> {
    "Target '"@ + label_text(target) + "': Security error - Path contains '..' segments\nPath: "@
        + input + "\nWorkspace root: "@ + root
        + "\nReason: Relative parent references not allowed\nSuggestion: Use workspace-relative paths in sources() predicate"@
}

/// Refuses an input path of a sandboxed build that holds `..`: the report, or `None` when
/// the path holds no `..`.
pub fn parent_reference_error(target: &TargetLabel, input: &str, workspace_root: &str) -> (r: Option<String>)
    ensures
        contains_seq(input@, ".."@) ==> (r matches Some(m) && m@ == parent_reference_text(target@, input@, workspace_root@)),
        !contains_seq(input@, ".."@) ==> r is None,
{
    if !str_contains(input, "..") {
        return None;
    }
    let mut m = String::new();
    push_all(&mut m, "Target '");
    let label = target.to_string();
    push_string(&mut m, &label);
    push_all(&mut m, "': Security error - Path contains '..' segments\nPath: ");
    push_all(&mut m, input);
    push_all(&mut m, "\nWorkspace root: ");
    push_all(&mut m, workspace_root);
    push_all(&mut m, "\nReason: Relative parent references not allowed\nSuggestion: Use workspace-relative paths in sources() predicate");
    Some(m)
}

/// The number of `/` that `s` starts with.
pub open spec fn leading_slashes(s: Seq<char>) -> nat
    decreases s.len(),
{
    if s.len() > 0 && s[0] == '/' { 1 + leading_slashes(s.skip(1)) } else { 0 }
}

/// Where an absolute input path goes inside the sandbox: the path without its leading `/`.
pub fn mirrored_path(input: &str) -> (r: String)
    ensures
        r@ == input@.skip(leading_slashes(input@) as int),
        leading_slashes(input@) <= input@.len(),
        leading_slashes(r@) == 0,
{
    let cs = str_chars(input);
    let mut i: usize = 0;
    proof {
        assert(input@.skip(0) =~= input@);
    }
    while i < cs.len() && cs[i] == '/'
        invariant
            cs@ == input@,
            i <= cs@.len(),
            leading_slashes(input@) == i + leading_slashes(input@.skip(i as int)),
        decreases cs@.len() - i,
    {
        assert(input@.skip(i as int).skip(1) =~= input@.skip(i + 1));
        i = i + 1;
    }
    let r = string_from_range(cs.as_slice(), i, cs.len());
    proof {
        assert(cs@.subrange(i as int, cs@.len() as int) =~= input@.skip(i as int));
    }
    r
}

} // verus!
