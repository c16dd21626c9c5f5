use vstd::prelude::*;
use crate::text::{is_ascii_digit, is_ident_start, is_ident_char, digits_value, str_chars, string_from_chars, string_from_range};

verus! {

/// A token of the datalog syntax.
pub enum Token {
    Ident(String),
    Str(String),
    Int(i64),
    LParen,
    RParen,
    Dot,
    Comma,
    RuleSep,
    Eq,
    NotEq,
}

/// The mathematical model of a token.
pub enum SpecToken {
    Ident(Seq<char>),
    Str(Seq<char>),
    Int(i64),
    LParen,
    RParen,
    Dot,
    Comma,
    RuleSep,
    Eq,
    NotEq,
}

impl View for Token {
    type V = SpecToken;

    open spec fn view(&self) -> SpecToken {
        match self {
            Token::Ident(s) => SpecToken::Ident(s@),
            Token::Str(s) => SpecToken::Str(s@),
            Token::Int(i) => SpecToken::Int(*i),
            Token::LParen => SpecToken::LParen,
            Token::RParen => SpecToken::RParen,
            Token::Dot => SpecToken::Dot,
            Token::Comma => SpecToken::Comma,
            Token::RuleSep => SpecToken::RuleSep,
            Token::Eq => SpecToken::Eq,
            Token::NotEq => SpecToken::NotEq,
        }
    }
}

pub open spec fn tokens_view(ts: Seq<Token>) -> Seq<SpecToken> {
    ts.map_values(|t: Token| t@)
}

/// End of the run of decimal digits that starts at `j`.
pub open spec fn digits_end(cs: Seq<char>, j: int) -> int
    decreases cs.len() - j,
{
    if 0 <= j < cs.len() && is_ascii_digit(cs[j]) {
        digits_end(cs, j + 1)
    } else {
        j
    }
}

/// End of the run of identifier characters that starts at `j`.
pub open spec fn ident_end(cs: Seq<char>, j: int) -> int
    decreases cs.len() - j,
{
    if 0 <= j < cs.len() && is_ident_char(cs[j]) {
        ident_end(cs, j + 1)
    } else {
        j
    }
}

/// Position of the first newline at or after `j`, or the end.
pub open spec fn line_end(cs: Seq<char>, j: int) -> int
    decreases cs.len() - j,
{
    if 0 <= j < cs.len() && cs[j] != '\n' {
        line_end(cs, j + 1)
    } else {
        j
    }
}

/// Position of the first quote or backslash at or after `j`, or the end.
pub open spec fn plain_end(cs: Seq<char>, j: int) -> int
    decreases cs.len() - j,
{
    if 0 <= j < cs.len() && cs[j] != '"' && cs[j] != '\\' {
        plain_end(cs, j + 1)
    } else {
        j
    }
}

/// What an escape sequence `\c` stands for inside a string literal.
pub open spec fn unescape(c: char) -> Seq<char> {
    if c == 'n' {
        seq!['\n']
    } else if c == 't' {
        seq!['\t']
    } else if c == 'r' {
        seq!['\r']
    } else if c == '\\' {
        seq!['\\']
    } else if c == '"' {
        seq!['"']
    } else if c == '0' {
        seq!['\0']
    } else {
        seq!['\\', c]
    }
}

/// Content of an escaped string literal from `j` up to its closing quote.
pub open spec fn esc_content(cs: Seq<char>, j: int) -> Seq<char>
    decreases cs.len() - j,
{
    if j < 0 || j >= cs.len() || cs[j] == '"' {
        seq![]
    } else if cs[j] == '\\' && j + 1 < cs.len() {
        unescape(cs[j + 1]) + esc_content(cs, j + 2)
    } else {
        seq![cs[j]] + esc_content(cs, j + 1)
    }
}

/// Position of the closing quote of an escaped string literal (or the end).
pub open spec fn esc_end(cs: Seq<char>, j: int) -> int
    decreases cs.len() - j,
{
    if j < 0 || j >= cs.len() || cs[j] == '"' {
        j
    } else if cs[j] == '\\' && j + 1 < cs.len() {
        esc_end(cs, j + 2)
    } else {
        esc_end(cs, j + 1)
    }
}

/// The next position to read from: `e` when it moves forward within the input.
pub open spec fn next_pos(cs: Seq<char>, i: int, e: int) -> int {
    if i < e && e <= cs.len() {
        e
    } else {
        i + 1
    }
}

/// The token of a run of digits (with a sign when `neg`), if it fits an `i64`.
pub open spec fn int_token(digits: Seq<char>, neg: bool) -> Seq<SpecToken> {
    let v = digits_value(digits);
    if neg {
        if v <= 0x8000_0000_0000_0000 {
            seq![SpecToken::Int((-(v as int)) as i64)]
        } else {
            seq![]
        }
    } else {
        if v <= 0x7fff_ffff_ffff_ffff {
            seq![SpecToken::Int(v as i64)]
        } else {
            seq![]
        }
    }
}

/// The tokens of the input from position `i` on.
pub open spec fn lex_from(cs: Seq<char>, i: int) -> Seq<SpecToken>
    decreases cs.len() - i,
{
    if i < 0 || i >= cs.len() {
        seq![]
    } else {
        let c = cs[i];
        if c == '#' {
            lex_from(cs, next_pos(cs, i, line_end(cs, i)))
        } else if c == ' ' || c == '\t' || c == '\n' || c == '\r' {
            lex_from(cs, i + 1)
        } else if c == '(' {
            seq![SpecToken::LParen] + lex_from(cs, i + 1)
        } else if c == ')' {
            seq![SpecToken::RParen] + lex_from(cs, i + 1)
        } else if c == '.' {
            seq![SpecToken::Dot] + lex_from(cs, i + 1)
        } else if c == ',' {
            seq![SpecToken::Comma] + lex_from(cs, i + 1)
        } else if c == ':' {
            if i + 1 < cs.len() && cs[i + 1] == '-' {
                seq![SpecToken::RuleSep] + lex_from(cs, i + 2)
            } else {
                lex_from(cs, i + 1)
            }
        } else if c == '=' {
            seq![SpecToken::Eq] + lex_from(cs, i + 1)
        } else if c == '!' {
            if i + 1 < cs.len() && cs[i + 1] == '=' {
                seq![SpecToken::NotEq] + lex_from(cs, i + 2)
            } else {
                lex_from(cs, i + 1)
            }
        } else if c == '"' {
            let p = plain_end(cs, i + 1);
            if p < cs.len() && cs[p] == '\\' {
                let e = esc_end(cs, p);
                seq![SpecToken::Str(cs.subrange(i + 1, p) + esc_content(cs, p))] + lex_from(
                    cs,
                    next_pos(cs, i, if e + 1 <= cs.len() { e + 1 } else { cs.len() as int }),
                )
            } else {
                seq![SpecToken::Str(cs.subrange(i + 1, p))] + lex_from(
                    cs,
                    next_pos(cs, i, if p + 1 <= cs.len() { p + 1 } else { cs.len() as int }),
                )
            }
        } else if is_ascii_digit(c) {
            let e = digits_end(cs, i);
            int_token(cs.subrange(i, e), false) + lex_from(cs, next_pos(cs, i, e))
        } else if c == '-' && i + 1 < cs.len() && is_ascii_digit(cs[i + 1]) {
            let e = digits_end(cs, i + 1);
            int_token(cs.subrange(i + 1, e), true) + lex_from(cs, next_pos(cs, i, e))
        } else if is_ident_start(c) {
            let e = ident_end(cs, i);
            seq![SpecToken::Ident(cs.subrange(i, e))] + lex_from(cs, next_pos(cs, i, e))
        } else {
            lex_from(cs, i + 1)
        }
    }
}

/// The tokens of a text.
pub open spec fn tokenize_spec(s: Seq<char>) -> Seq<SpecToken> {
    lex_from(s, 0)
}

proof fn lemma_tokens_push(ts: Seq<Token>, t: Token)
    ensures
        tokens_view(ts.push(t)) == tokens_view(ts).push(t@),
{
    assert(tokens_view(ts.push(t)) =~= tokens_view(ts).push(t@));
}

/// The value of a digit run never shrinks as the run grows.
proof fn lemma_digits_value_mono(cs: Seq<char>, i: int, k: int, e: int)
    requires
        0 <= i <= k <= e <= cs.len(),
    ensures
        digits_value(cs.subrange(i, k)) <= digits_value(cs.subrange(i, e)),
    decreases e - k,
{
    if k < e {
        lemma_digits_value_mono(cs, i, k, e - 1);
        assert(cs.subrange(i, e).drop_last() =~= cs.subrange(i, e - 1));
    }
}

fn scan_digits(cs: &[char], j: usize) -> (e: usize)
    requires
        j <= cs@.len(),
    ensures
        e == digits_end(cs@, j as int),
        j <= e <= cs@.len(),
        forall|k: int| j <= k < e ==> is_ascii_digit(cs@[k]),
{
    let mut k = j;
    while k < cs.len() && '0' <= cs[k] && cs[k] <= '9'
        invariant
            j <= k <= cs@.len(),
            digits_end(cs@, j as int) == digits_end(cs@, k as int),
            forall|m: int| j <= m < k ==> is_ascii_digit(cs@[m]),
        decreases cs@.len() - k,
    {
        k = k + 1;
    }
    k
}

fn scan_ident(cs: &[char], j: usize) -> (e: usize)
    requires
        j <= cs@.len(),
    ensures
        e == ident_end(cs@, j as int),
        j <= e <= cs@.len(),
{
    let mut k = j;
    while k < cs.len() && (('a' <= cs[k] && cs[k] <= 'z') || ('A' <= cs[k] && cs[k] <= 'Z') || (
    '0' <= cs[k] && cs[k] <= '9') || cs[k] == '_')
        invariant
            j <= k <= cs@.len(),
            ident_end(cs@, j as int) == ident_end(cs@, k as int),
        decreases cs@.len() - k,
    {
        k = k + 1;
    }
    k
}

fn scan_line(cs: &[char], j: usize) -> (e: usize)
    requires
        j <= cs@.len(),
    ensures
        e == line_end(cs@, j as int),
        j <= e <= cs@.len(),
{
    let mut k = j;
    while k < cs.len() && cs[k] != '\n'
        invariant
            j <= k <= cs@.len(),
            line_end(cs@, j as int) == line_end(cs@, k as int),
        decreases cs@.len() - k,
    {
        k = k + 1;
    }
    k
}

fn scan_plain(cs: &[char], j: usize) -> (e: usize)
    requires
        j <= cs@.len(),
    ensures
        e == plain_end(cs@, j as int),
        j <= e <= cs@.len(),
{
    let mut k = j;
    while k < cs.len() && cs[k] != '"' && cs[k] != '\\'
        invariant
            j <= k <= cs@.len(),
            plain_end(cs@, j as int) == plain_end(cs@, k as int),
        decreases cs@.len() - k,
    {
        k = k + 1;
    }
    k
}

fn push_unescaped(acc: &mut Vec<char>, c: char)
    ensures
        final(acc)@ == old(acc)@ + unescape(c),
{
    if c == 'n' {
        acc.push('\n');
    } else if c == 't' {
        acc.push('\t');
    } else if c == 'r' {
        acc.push('\r');
    } else if c == '\\' {
        acc.push('\\');
    } else if c == '"' {
        acc.push('"');
    } else if c == '0' {
        acc.push('\0');
    } else {
        acc.push('\\');
        acc.push(c);
        assert(acc@ =~= old(acc)@ + unescape(c));
        return;
    }
    assert(acc@ =~= old(acc)@ + unescape(c));
}

/// Reads an escaped string literal body from `p`; returns its content and the closing position.
fn scan_escaped(cs: &[char], p: usize) -> (r: (Vec<char>, usize))
    requires
        p <= cs@.len(),
    ensures
        r.0@ == esc_content(cs@, p as int),
        r.1 == esc_end(cs@, p as int),
        p <= r.1 <= cs@.len(),
{
    let mut acc: Vec<char> = Vec::new();
    let mut j = p;
    while j < cs.len() && cs[j] != '"'
        invariant
            p <= j <= cs@.len(),
            esc_content(cs@, p as int) == acc@ + esc_content(cs@, j as int),
            esc_end(cs@, p as int) == esc_end(cs@, j as int),
        decreases cs@.len() - j,
    {
        let ghost before = acc@;
        if cs[j] == '\\' && j + 1 < cs.len() {
            push_unescaped(&mut acc, cs[j + 1]);
            assert(esc_content(cs@, j as int) == unescape(cs@[j + 1]) + esc_content(
                cs@,
                j + 2,
            ));
            assert(before + (unescape(cs@[j + 1]) + esc_content(cs@, j + 2)) =~= acc@
                + esc_content(cs@, j + 2));
            j = j + 2;
        } else {
            acc.push(cs[j]);
            assert(before + (seq![cs@[j as int]] + esc_content(cs@, j + 1)) =~= acc@
                + esc_content(cs@, j + 1));
            j = j + 1;
        }
    }
    assert(acc@ + esc_content(cs@, j as int) =~= acc@);
    (acc, j)
}

/// The value of the digits from `i` to `e`, when it is at most `limit`.
fn digits_value_upto(cs: &[char], i: usize, e: usize, limit: u64) -> (r: Option<u64>)
    requires
        i <= e <= cs@.len(),
        forall|k: int| i <= k < e ==> is_ascii_digit(cs@[k]),
    ensures
        match r {
            Some(v) => v as nat == digits_value(cs@.subrange(i as int, e as int)) && v <= limit,
            None => digits_value(cs@.subrange(i as int, e as int)) > limit,
        },
{
    let mut acc: u64 = 0;
    let mut k = i;
    assert(cs@.subrange(i as int, i as int) =~= Seq::<char>::empty());
    while k < e
        invariant
            i <= k <= e <= cs@.len(),
            forall|m: int| i <= m < e ==> is_ascii_digit(cs@[m]),
            acc as nat == digits_value(cs@.subrange(i as int, k as int)),
            acc <= limit,
        decreases e - k,
    {
        let d = (cs[k] as u32 - '0' as u32) as u128;
        let next: u128 = (acc as u128) * 10 + d;
        assert(cs@.subrange(i as int, k + 1).drop_last() =~= cs@.subrange(i as int, k as int));
        if next > limit as u128 {
            proof {
                lemma_digits_value_mono(cs@, i as int, k + 1, e as int);
            }
            return None;
        }
        acc = next as u64;
        k = k + 1;
    }
    Some(acc)
}

fn int_tokens(cs: &[char], i: usize, e: usize, neg: bool, toks: &mut Vec<Token>)
    requires
        i <= e <= cs@.len(),
        forall|k: int| i <= k < e ==> is_ascii_digit(cs@[k]),
    ensures
        tokens_view(final(toks)@) == tokens_view(old(toks)@) + int_token(
            cs@.subrange(i as int, e as int),
            neg,
        ),
{
    if neg {
        match digits_value_upto(cs, i, e, 0x8000_0000_0000_0000u64) {
            Some(v) => {
                let t: i64 = if v == 0x8000_0000_0000_0000u64 {
                    i64::MIN
                } else {
                    -(v as i64)
                };
                proof { lemma_tokens_push(old(toks)@, Token::Int(t)); }
                toks.push(Token::Int(t));
                assert(tokens_view(toks@) =~= tokens_view(old(toks)@) + int_token(
                    cs@.subrange(i as int, e as int),
                    neg,
                ));
            },
            None => {
                assert(tokens_view(toks@) =~= tokens_view(old(toks)@) + int_token(
                    cs@.subrange(i as int, e as int),
                    neg,
                ));
            },
        }
    } else {
        match digits_value_upto(cs, i, e, 0x7fff_ffff_ffff_ffffu64) {
            Some(v) => {
                proof { lemma_tokens_push(old(toks)@, Token::Int(v as i64)); }
                toks.push(Token::Int(v as i64));
                assert(tokens_view(toks@) =~= tokens_view(old(toks)@) + int_token(
                    cs@.subrange(i as int, e as int),
                    neg,
                ));
            },
            None => {
                assert(tokens_view(toks@) =~= tokens_view(old(toks)@) + int_token(
                    cs@.subrange(i as int, e as int),
                    neg,
                ));
            },
        }
    }
}

fn push_token(toks: &mut Vec<Token>, t: Token)
    ensures
        tokens_view(final(toks)@) == tokens_view(old(toks)@) + seq![t@],
{
    proof { lemma_tokens_push(old(toks)@, t); }
    let ghost tv = t@;
    toks.push(t);
    assert(tokens_view(toks@) =~= tokens_view(old(toks)@) + seq![tv]);
}

/// Splits a text into tokens.
pub fn tokenize(input: &str) -> (r: Vec<Token>)
    ensures
        tokens_view(r@) == tokenize_spec(input@),
{
    let cs_vec = str_chars(input);
    let cs = cs_vec.as_slice();
    let n = cs.len();
    let mut toks: Vec<Token> = Vec::new();
    let mut i: usize = 0;
    assert(tokens_view(toks@) =~= Seq::<SpecToken>::empty());
    while i < n
        invariant
            n == cs@.len(),
            cs@ == input@,
            i <= n,
            lex_from(cs@, 0) == tokens_view(toks@) + lex_from(cs@, i as int),
        decreases n - i,
    {
        let c = cs[i];
        let ghost tv0 = tokens_view(toks@);
        let ghost lex_i = lex_from(cs@, i as int);
        let ghost i0 = i as int;
        let ghost mut added: Seq<SpecToken> = seq![];
        if c == '#' {
            let e = scan_line(cs, i);
            i = if i < e { e } else { i + 1 };
        } else if c == ' ' || c == '\t' || c == '\n' || c == '\r' {
            i = i + 1;
        } else if c == '(' {
            push_token(&mut toks, Token::LParen);
            proof { added = seq![SpecToken::LParen]; }
            i = i + 1;
        } else if c == ')' {
            push_token(&mut toks, Token::RParen);
            proof { added = seq![SpecToken::RParen]; }
            i = i + 1;
        } else if c == '.' {
            push_token(&mut toks, Token::Dot);
            proof { added = seq![SpecToken::Dot]; }
            i = i + 1;
        } else if c == ',' {
            push_token(&mut toks, Token::Comma);
            proof { added = seq![SpecToken::Comma]; }
            i = i + 1;
        } else if c == ':' {
            if i + 1 < n && cs[i + 1] == '-' {
                push_token(&mut toks, Token::RuleSep);
                proof { added = seq![SpecToken::RuleSep]; }
                i = i + 2;
            } else {
                i = i + 1;
            }
        } else if c == '=' {
            push_token(&mut toks, Token::Eq);
            proof { added = seq![SpecToken::Eq]; }
            i = i + 1;
        } else if c == '!' {
            if i + 1 < n && cs[i + 1] == '=' {
                push_token(&mut toks, Token::NotEq);
                proof { added = seq![SpecToken::NotEq]; }
                i = i + 2;
            } else {
                i = i + 1;
            }
        } else if c == '"' {
            let p = scan_plain(cs, i + 1);
            if p < n && cs[p] == '\\' {
                let (esc, e) = scan_escaped(cs, p);
                let mut content: Vec<char> = Vec::new();
                let mut k = i + 1;
                while k < p
                    invariant
                        i + 1 <= k <= p <= n,
                        n == cs@.len(),
                        content@ == cs@.subrange(i + 1, k as int),
                    decreases p - k,
                {
                    content.push(cs[k]);
                    k = k + 1;
                    assert(content@ =~= cs@.subrange(i + 1, k as int));
                }
                let mut m: usize = 0;
                let ghost pre = content@;
                while m < esc.len()
                    invariant
                        m <= esc@.len(),
                        content@ == pre + esc@.take(m as int),
                    decreases esc@.len() - m,
                {
                    content.push(esc[m]);
                    m = m + 1;
                    assert(content@ =~= pre + esc@.take(m as int));
                }
                assert(esc@.take(esc@.len() as int) =~= esc@);
                let s = string_from_chars(content.as_slice());
                proof { added = seq![SpecToken::Str(s@)]; }
                push_token(&mut toks, Token::Str(s));
                let nxt = if e < n { e + 1 } else { n };
                i = if i < nxt { nxt } else { i + 1 };
            } else {
                let s = string_from_range(cs, i + 1, p);
                proof { added = seq![SpecToken::Str(s@)]; }
                push_token(&mut toks, Token::Str(s));
                let nxt = if p < n { p + 1 } else { n };
                i = if i < nxt { nxt } else { i + 1 };
            }
        } else if '0' <= c && c <= '9' {
            let e = scan_digits(cs, i);
            int_tokens(cs, i, e, false, &mut toks);
            proof { added = int_token(cs@.subrange(i0, e as int), false); }
            i = if i < e { e } else { i + 1 };
        } else if c == '-' && i + 1 < n && '0' <= cs[i + 1] && cs[i + 1] <= '9' {
            let e = scan_digits(cs, i + 1);
            int_tokens(cs, i + 1, e, true, &mut toks);
            proof { added = int_token(cs@.subrange(i0 + 1, e as int), true); }
            i = if i < e { e } else { i + 1 };
        } else if ('a' <= c && c <= 'z') || ('A' <= c && c <= 'Z') || c == '_' {
            let e = scan_ident(cs, i);
            let s = string_from_range(cs, i, e);
            proof { added = seq![SpecToken::Ident(s@)]; }
            push_token(&mut toks, Token::Ident(s));
            i = if i < e { e } else { i + 1 };
        } else {
            i = i + 1;
        }
        assert(lex_i == added + lex_from(cs@, i as int));
        assert(tokens_view(toks@) == tv0 + added);
        assert((tv0 + added) + lex_from(cs@, i as int) =~= tv0 + (added + lex_from(cs@, i as int)));
    }
    assert(tokens_view(toks@) + lex_from(cs@, n as int) =~= tokens_view(toks@));
    toks
}

} // verus!
