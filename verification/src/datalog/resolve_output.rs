use vstd::prelude::*;
use crate::text::{str_chars, string_from_chars};
use crate::format::{text_lines, line_break, lemma_line_break_bounds};
use crate::datalog::store::strings_view;

verus! {

/// The text that `String::from_utf8_lossy` makes of bytes.
pub uninterp spec fn utf8_lossy(bytes: Seq<u8>) -> Seq<char>;

/// `String::from_utf8_lossy`: decodes bytes as UTF-8, with U+FFFD in place of invalid
/// sequences. Bytes that are all ASCII decode to the characters of the same codes.
#[verifier::external_body]
fn decode_lossy(bytes: &Vec<u8>) -> (r: String)
    ensures
        r@ == utf8_lossy(bytes@),
        (forall|i: int| 0 <= i < bytes@.len() ==> bytes@[i] < 128) ==> r@ == bytes@.map_values(|b: u8| b as char),
{
    String::from_utf8_lossy(bytes).to_string()
}

/// The lines of a tool's output, decoded as `from_utf8_lossy` does.
pub open spec fn output_lines(bytes: Seq<u8>) -> Seq<Seq<char>> {
    text_lines(utf8_lossy(bytes))
}

/// The lines of a text, as `str::lines` gives them.
pub fn split_lines(cs: &Vec<char>) -> (r: Vec<String>)
    ensures
        strings_view(r@) == text_lines(cs@),
{
    let n = cs.len();
    let mut out: Vec<String> = Vec::new();
    let mut p: usize = 0;
    assert(cs@.skip(0) =~= cs@);
    assert(strings_view(out@) =~= Seq::<Seq<char>>::empty());
    while p < n
        invariant
            n == cs@.len(),
            p <= n,
            text_lines(cs@) == strings_view(out@) + text_lines(cs@.skip(p as int)),
        decreases n - p,
    {
        let ghost rest = cs@.skip(p as int);
        proof { lemma_line_break_bounds(rest); }
        let mut k: usize = p;
        while k < n && cs[k] != '\n'
            invariant
                p <= k <= n,
                n == cs@.len(),
                forall|j: int| p <= j < k ==> cs@[j] != '\n',
            decreases n - k,
        {
            k = k + 1;
        }
        proof { lemma_line_break_is(rest, (k - p) as int); }
        let mut e: usize = k;
        if e > p && cs[e - 1] == '\r' {
            e = e - 1;
        }
        let mut line: Vec<char> = Vec::new();
        let mut q: usize = p;
        while q < e
            invariant
                p <= q <= e <= k <= n,
                n == cs@.len(),
                line@ == cs@.subrange(p as int, q as int),
            decreases e - q,
        {
            line.push(cs[q]);
            q = q + 1;
            assert(line@ =~= cs@.subrange(p as int, q as int));
        }
        let ghost first = if rest.take(k - p).len() > 0 && rest.take(k - p).last() == '\r' { rest.take(k - p).drop_last() } else { rest.take(k - p) };
        assert(line@ =~= first);
        let s = string_from_chars(line.as_slice());
        let ghost prev = out@;
        out.push(s);
        assert(strings_view(out@) =~= strings_view(prev).push(first));
        if k >= n {
            assert(text_lines(rest) =~= seq![first]);
            assert(cs@.skip(n as int).len() == 0);
            assert(text_lines(cs@.skip(n as int)) =~= Seq::<Seq<char>>::empty());
            assert(text_lines(cs@) =~= strings_view(out@) + text_lines(cs@.skip(n as int)));
            p = n;
        } else {
            assert(rest.skip(k - p + 1) =~= cs@.skip(k + 1));
            assert(text_lines(rest) =~= seq![first] + text_lines(cs@.skip(k + 1)));
            assert(text_lines(cs@) =~= strings_view(out@) + text_lines(cs@.skip(k + 1)));
            p = k + 1;
        }
    }
    assert(cs@.skip(p as int).len() == 0);
    assert(text_lines(cs@.skip(p as int)) =~= Seq::<Seq<char>>::empty());
    assert(strings_view(out@) + Seq::<Seq<char>>::empty() =~= strings_view(out@));
    out
}

proof fn lemma_line_break_is(s: Seq<char>, k: int)
    requires
        0 <= k <= s.len(),
        forall|j: int| 0 <= j < k ==> s[j] != '\n',
        k < s.len() ==> s[k] == '\n',
    ensures
        line_break(s) == k,
    decreases k,
{
    if k > 0 {
        lemma_line_break_is(s.skip(1), k - 1);
    }
}

/// The lines of a tool's output.
pub fn lines_of_output(bytes: &Vec<u8>) -> (r: Vec<String>)
    ensures
        strings_view(r@) == output_lines(bytes@),
{
    let text = decode_lossy(bytes);
    let cs = str_chars(text.as_str());
    split_lines(&cs)
}

} // verus!
