use vstd::prelude::*;

verus! {

/// Whether a text is a valid glob pattern, as `glob::Pattern::new` decides.
pub uninterp spec fn glob_valid(pattern: Seq<char>) -> bool;

/// Whether the glob pattern written `pattern` matches `path`, as `glob::Pattern::matches` decides.
pub uninterp spec fn glob_matches(pattern: Seq<char>, path: Seq<char>) -> bool;

#[verifier::external_type_specification]
#[verifier::external_body]
pub struct ExGlobPattern(glob::Pattern);

/// A compiled glob pattern and the text it was compiled from.
pub struct GlobPattern {
    source: String,
    compiled: glob::Pattern,
}

impl GlobPattern {
    /// The text the pattern was compiled from.
    pub closed spec fn text(&self) -> Seq<char> {
        self.source@
    }
}

/// `glob::Pattern::new`: compiles `pattern`. It succeeds exactly on the valid patterns,
/// and the result remembers the text it was compiled from.
#[verifier::external_body]
pub(crate) fn compile_glob(pattern: &str) -> (r: Option<GlobPattern>)
    ensures
        r is Some <==> glob_valid(pattern@),
        r matches Some(g) ==> g.text() == pattern@,
{
    match glob::Pattern::new(pattern) {
        Ok(p) => Some(GlobPattern { source: pattern.to_string(), compiled: p }),
        Err(_) => None,
    }
}

/// `glob::Pattern::matches`: whether the compiled pattern matches `path`; the answer depends
/// on the pattern's text and the path alone.
#[verifier::external_body]
pub(crate) fn glob_pattern_matches(g: &GlobPattern, path: &str) -> (r: bool)
    ensures
        r == glob_matches(g.text(), path@),
{
    g.compiled.matches(path)
}

} // verus!
