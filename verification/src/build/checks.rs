use vstd::prelude::*;
use crate::text::{unicode_alphanumeric, char_is_alphanumeric, contains_seq, str_chars, str_contains, push_all};

verus! {

/// The first of `pats` that occurs in `s`.
pub open spec fn first_found(s: Seq<char>, pats: Seq<Seq<char>>) -> Option<Seq<char>>
    decreases pats.len(),
{
    if pats.len() == 0 {
        None
    } else if contains_seq(s, pats[0]) {
        Some(pats[0])
    } else {
        first_found(s, pats.skip(1))
    }
}

/// The shell metacharacters refused in a tool name, in the order they are looked for.
pub open spec fn tool_name_patterns() -> Seq<Seq<char>> {
    seq![";"@, "|"@, "&"@, "$"@, "`"@, "\\"@, "\n"@, "\r"@]
}

/// The shell metacharacters and patterns refused in an argument, in the order they are looked for.
pub open spec fn argument_patterns() -> Seq<Seq<char>> {
    seq![";"@, "|"@, "&"@, "$"@, "`"@, "$("@, "${"@]
}

/// The characters allowed in a tool name besides letters and digits.
pub open spec fn tool_punctuation(c: char) -> bool {
    c == '-' || c == '_' || c == '/' || c == '.' || c == '+'
}

/// The first character of `s` that a tool name may not hold.
pub open spec fn first_invalid(s: Seq<char>) -> Option<char>
    decreases s.len(),
{
    if s.len() == 0 {
        None
    } else if !unicode_alphanumeric(s[0]) && !tool_punctuation(s[0]) {
        Some(s[0])
    } else {
        first_invalid(s.skip(1))
    }
}

/// What checking a tool name gives: `Ok` for a safe name, else the message.
pub open spec fn tool_name_check(tool: Seq<char>) -> Result<(), Seq<char>> {
    if tool.len() == 0 {
        Err("Tool name cannot be empty"@)
    } else if contains_seq(tool, "\0"@) {
        Err("Tool name contains null byte: "@ + tool)
    } else {
        match first_found(tool, tool_name_patterns()) {
            Some(p) => Err("Tool name '"@ + tool + "' contains dangerous shell metacharacter: "@ + p),
            None => match first_invalid(tool) {
                Some(c) => Err("Tool name '"@ + tool + "' contains invalid character '"@ + seq![c]
                    + "'. Only alphanumeric, -, _, /, ., + are allowed"@),
                None => Ok(()),
            },
        }
    }
}

/// What checking an argument gives: `Ok` for a safe argument, else the message.
pub open spec fn argument_check(arg: Seq<char>) -> Result<(), Seq<char>> {
    if contains_seq(arg, "\0"@) {
        Err("Argument contains null byte: "@ + arg)
    } else {
        match first_found(arg, argument_patterns()) {
            Some(p) => Err("Argument '"@ + arg + "' contains dangerous shell metacharacter or pattern: "@ + p),
            None => Ok(()),
        }
    }
}

pub open spec fn check_result(r: Result<(), String>, s: Result<(), Seq<char>>) -> bool {
    match (r, s) {
        (Ok(_), Ok(_)) => true,
        (Err(m), Err(sm)) => m@ == sm,
        _ => false,
    }
}

fn find_first(s: &str, pats: &Vec<&str>) -> (r: Option<usize>)
    ensures
        match first_found(s@, pats@.map_values(|p: &str| p@)) {
            Some(p) => r matches Some(i) && i < pats@.len() && pats@[i as int]@ == p,
            None => r is None,
        },
{
    let ghost all = pats@.map_values(|p: &str| p@);
    let mut i: usize = 0;
    assert(all.skip(0) =~= all);
    while i < pats.len()
        invariant
            i <= pats@.len(),
            all == pats@.map_values(|p: &str| p@),
            first_found(s@, all) == first_found(s@, all.skip(i as int)),
        decreases pats@.len() - i,
    {
        assert(all.skip(i as int)[0] == pats@[i as int]@);
        assert(all.skip(i as int).skip(1) =~= all.skip(i + 1));
        if str_contains(s, pats[i]) {
            return Some(i);
        }
        i = i + 1;
    }
    None
}

fn invalid_char(cs: &[char]) -> (r: Option<char>)
    ensures
        r == first_invalid(cs@),
{
    let mut i: usize = 0;
    assert(cs@.skip(0) =~= cs@);
    while i < cs.len()
        invariant
            i <= cs@.len(),
            first_invalid(cs@) == first_invalid(cs@.skip(i as int)),
        decreases cs@.len() - i,
    {
        let c = cs[i];
        assert(cs@.skip(i as int)[0] == c);
        assert(cs@.skip(i as int).skip(1) =~= cs@.skip(i + 1));
        if !char_is_alphanumeric(c) && c != '-' && c != '_' && c != '/' && c != '.' && c != '+' {
            return Some(c);
        }
        i = i + 1;
    }
    None
}

/// Checks that a tool name is safe to run: not empty, without a null byte or a shell
/// metacharacter, and made of letters, digits and `-`, `_`, `/`, `.`, `+` alone.
pub fn validate_tool_name(tool: &str) -> (r: Result<(), String>)
    ensures
        check_result(r, tool_name_check(tool@)),
{
    let cs = str_chars(tool);
    if cs.len() == 0 {
        return Err(crate::text::str_to_string("Tool name cannot be empty"));
    }
    if str_contains(tool, "\0") {
        proof { reveal_strlit("\0"); }
        let mut m = crate::text::str_to_string("Tool name contains null byte: ");
        push_all(&mut m, tool);
        return Err(m);
    }
    proof { reveal_strlit("\0"); }
    let pats: Vec<&str> = vec![";", "|", "&", "$", "`", "\\", "\n", "\r"];
    assert(pats@.map_values(|p: &str| p@) =~= tool_name_patterns());
    match find_first(tool, &pats) {
        Some(i) => {
            let mut m = crate::text::str_to_string("Tool name '");
            push_all(&mut m, tool);
            push_all(&mut m, "' contains dangerous shell metacharacter: ");
            push_all(&mut m, pats[i]);
            return Err(m);
        },
        None => {},
    }
    match invalid_char(cs.as_slice()) {
        Some(c) => {
            let mut m = crate::text::str_to_string("Tool name '");
            push_all(&mut m, tool);
            push_all(&mut m, "' contains invalid character '");
            let ghost before = m@;
            m.push(c);
            assert(m@ =~= before + seq![c]);
            push_all(&mut m, "'. Only alphanumeric, -, _, /, ., + are allowed");
            Err(m)
        },
        None => Ok(()),
    }
}

/// Checks that an argument is safe to hand to a tool: without a null byte and without a
/// shell metacharacter or substitution pattern.
pub fn validate_argument(arg: &str) -> (r: Result<(), String>)
    ensures
        check_result(r, argument_check(arg@)),
{
    if str_contains(arg, "\0") {
        proof { reveal_strlit("\0"); }
        let mut m = crate::text::str_to_string("Argument contains null byte: ");
        push_all(&mut m, arg);
        return Err(m);
    }
    proof { reveal_strlit("\0"); }
    let pats: Vec<&str> = vec![";", "|", "&", "$", "`", "$(", "${"];
    assert(pats@.map_values(|p: &str| p@) =~= argument_patterns());
    match find_first(arg, &pats) {
        Some(i) => {
            let mut m = crate::text::str_to_string("Argument '");
            push_all(&mut m, arg);
            push_all(&mut m, "' contains dangerous shell metacharacter or pattern: ");
            push_all(&mut m, pats[i]);
            Err(m)
        },
        None => Ok(()),
    }
}

/// What checking one environment variable gives: `Ok` when neither the name nor the value
/// holds a null byte and the value holds no shell metacharacter or pattern, else the message.
pub open spec fn env_entry_check(key: Seq<char>, value: Seq<char>) -> Result<(), Seq<char>> {
    if contains_seq(key, "\0"@) {
        Err("Environment key contains null byte: "@ + key)
    } else if contains_seq(value, "\0"@) {
        Err("Environment value contains null byte: "@ + value)
    } else {
        match first_found(value, argument_patterns()) {
            Some(p) => Err("Environment value for '"@ + key + "' contains dangerous shell metacharacter or pattern: "@ + p),
            None => Ok(()),
        }
    }
}

/// What checking the variables `env[..n]` in order gives: the message of the first one refused.
pub open spec fn env_check(env: Seq<(Seq<char>, Seq<char>)>, n: int) -> Result<(), Seq<char>>
    decreases n,
{
    if n <= 0 {
        Ok(())
    } else {
        match env_check(env, n - 1) {
            Err(m) => Err(m),
            Ok(_) => env_entry_check(env[n - 1].0, env[n - 1].1),
        }
    }
}

proof fn lemma_env_check_err(env: Seq<(Seq<char>, Seq<char>)>, k: int, n: int)
    requires
        0 <= k <= n,
        env_check(env, k) is Err,
    ensures
        env_check(env, n) == env_check(env, k),
    decreases n - k,
{
    if n > k {
        lemma_env_check_err(env, k, n - 1);
    }
}

/// Checks the environment of a command, variable by variable (see `env_check`).
pub fn validate_env_variables(env: &Vec<(String, String)>) -> (r: Result<(), String>)
    ensures
        check_result(r, env_check(env@.map_values(|e: (String, String)| (e.0@, e.1@)), env@.len() as int)),
{
    let ghost ev = env@.map_values(|e: (String, String)| (e.0@, e.1@));
    proof { reveal_strlit("\0"); }
    let pats: Vec<&str> = vec![";", "|", "&", "$", "`", "$(", "${"];
    assert(pats@.map_values(|p: &str| p@) =~= argument_patterns());
    let mut i: usize = 0;
    while i < env.len()
        invariant
            i <= env@.len(),
            ev == env@.map_values(|e: (String, String)| (e.0@, e.1@)),
            pats@.map_values(|p: &str| p@) == argument_patterns(),
            env_check(ev, i as int) == Ok::<(), Seq<char>>(()),
        decreases env@.len() - i,
    {
        let key = env[i].0.as_str();
        let value = env[i].1.as_str();
        assert(ev[i as int] == (key@, value@));
        if str_contains(key, "\0") {
            let mut m = crate::text::str_to_string("Environment key contains null byte: ");
            push_all(&mut m, key);
            proof { lemma_env_check_err(ev, i + 1, env@.len() as int); }
            return Err(m);
        }
        if str_contains(value, "\0") {
            let mut m = crate::text::str_to_string("Environment value contains null byte: ");
            push_all(&mut m, value);
            proof { lemma_env_check_err(ev, i + 1, env@.len() as int); }
            return Err(m);
        }
        match find_first(value, &pats) {
            Some(j) => {
                let mut m = crate::text::str_to_string("Environment value for '");
                push_all(&mut m, key);
                push_all(&mut m, "' contains dangerous shell metacharacter or pattern: ");
                push_all(&mut m, pats[j]);
                proof { lemma_env_check_err(ev, i + 1, env@.len() as int); }
                return Err(m);
            },
            None => {},
        }
        i = i + 1;
    }
    Ok(())
}

} // verus!
