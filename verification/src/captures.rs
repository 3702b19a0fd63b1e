//! Regular-expression matches cut into plain text pieces, and the two
//! rewrites that the conversion makes of them: the boundary after a run of
//! digits, and the collapse of separator runs.

use vstd::prelude::*;
use crate::steps::{separator_char, is_separator};
use crate::text::{unicode_uppercase, upper, chars_of, string_of, extend_chars, extend_str};

verus! {

/// One match of a regular expression with a first capture group, together
/// with the text between the end of the previous match (or the start of the
/// haystack) and this match.
///
/// The match itself is `head + group + tail`, where `group` is the text of
/// the first capture group (empty, at the end of the match, where the group
/// did not take part in the match).
pub struct RegexCapture {
    pub before: String,
    pub head: String,
    pub group: String,
    pub tail: String,
}

/// A capture as four pieces of text: before, head, group, tail.
pub type CaptureView = (Seq<char>, Seq<char>, Seq<char>, Seq<char>);

impl View for RegexCapture {
    type V = CaptureView;

    open spec fn view(&self) -> CaptureView {
        (self.before@, self.head@, self.group@, self.tail@)
    }
}

/// The views of a sequence of captures.
pub open spec fn captures_view(v: Seq<RegexCapture>) -> Seq<CaptureView> {
    v.map_values(|c: RegexCapture| c@)
}

/// The text that a capture covers: what comes before the match, then the match.
pub open spec fn capture_text(c: CaptureView) -> Seq<char> {
    c.0 + c.1 + c.2 + c.3
}

/// The text covered by a sequence of captures, in order.
pub open spec fn captures_text(cs: Seq<CaptureView>) -> Seq<char>
    decreases cs.len(),
{
    if cs.len() == 0 {
        Seq::empty()
    } else {
        captures_text(cs.drop_last()) + capture_text(cs.last())
    }
}

/// The matches that `regex::Regex::captures_iter` finds for `pattern` in
/// `haystack`, cut into pieces, and the text after the last match; `None`
/// where `regex::Regex::new` refuses the pattern.
pub uninterp spec fn regex_captures(pattern: Seq<char>, haystack: Seq<char>) -> Option<
    (Seq<CaptureView>, Seq<char>),
>;

/// Compiles `pattern` with `regex::Regex::new` and walks the matches that
/// `regex::Regex::captures_iter` yields in `haystack`. Each match becomes a
/// `RegexCapture`; the text after the last match is returned beside them.
///
/// Claimed: the result is the named function of the two texts (`None` where
/// compilation fails), and the pieces, read in order and followed by the
/// trailing text, give back the haystack (the matches come in order, do not
/// overlap, and each capture group lies inside its match). Which matches the
/// pattern has is not restated.
#[verifier::external_body]
pub(crate) fn find_captures(pattern: &str, haystack: &str) -> (res: Option<(Vec<RegexCapture>, String)>)
    ensures
        match res {
            Some((v, t)) => regex_captures(pattern@, haystack@) == Some((captures_view(v@), t@)),
            None => regex_captures(pattern@, haystack@) is None,
        },
        res matches Some((v, t)) ==> captures_text(captures_view(v@)) + t@ == haystack@,
{
    let re = regex::Regex::new(pattern).ok()?;
    let mut found = Vec::new();
    let mut last: usize = 0;
    for caps in re.captures_iter(haystack) {
        let m = caps.get(0).unwrap().range();
        let g = caps.get(1).map_or(m.end..m.end, |g| g.range());
        found.push(RegexCapture {
            before: haystack[last..m.start].to_string(),
            head: haystack[m.start..g.start].to_string(),
            group: haystack[g.clone()].to_string(),
            tail: haystack[g.end..m.end].to_string(),
        });
        last = m.end;
    }
    Some((found, haystack[last..].to_string()))
}

pub proof fn lemma_captures_text_append(a: Seq<CaptureView>, b: Seq<CaptureView>)
    ensures
        captures_text(a + b) == captures_text(a) + captures_text(b),
    decreases b.len(),
{
    if b.len() == 0 {
        assert(a + b =~= a);
    } else {
        lemma_captures_text_append(a, b.drop_last());
        assert((a + b).drop_last() =~= a + b.drop_last());
    }
}

pub proof fn lemma_captures_text_take(cs: Seq<CaptureView>, j: int)
    requires
        0 <= j <= cs.len(),
    ensures
        captures_text(cs) == captures_text(cs.take(j)) + captures_text(cs.skip(j)),
        captures_text(cs.take(j)).len() <= captures_text(cs).len(),
{
    lemma_captures_text_append(cs.take(j), cs.skip(j));
    assert(cs.take(j) + cs.skip(j) =~= cs);
}

proof fn lemma_captures_text_step(cs: Seq<CaptureView>, i: int)
    requires
        0 <= i < cs.len(),
    ensures
        captures_text(cs.take(i + 1)) == captures_text(cs.take(i)) + capture_text(cs[i]),
{
    assert(cs.take(i + 1).drop_last() =~= cs.take(i));
}

/// What a match of the digit-run pattern becomes. The match is
/// `head + group + tail` and the character after it in the text decides:
/// before a separator the match stays; with an empty group it stays;
/// otherwise the group, cut from the end of the match, is uppercased.
pub open spec fn number_boundary_replacement(cs: Seq<CaptureView>, trailing: Seq<char>, i: int) -> Seq<char> {
    let c = cs[i];
    let whole = c.1 + c.2 + c.3;
    let ident = c.2;
    let text = captures_text(cs) + trailing;
    let end = captures_text(cs.take(i + 1)).len();
    if end < text.len() && separator_char(text[end as int]) {
        whole
    } else if ident.len() == 0 {
        whole
    } else {
        whole.take(whole.len() - ident.len()) + unicode_uppercase(ident)
    }
}

/// The rewritten text of the first `n` captures.
pub open spec fn number_boundaries_upto(cs: Seq<CaptureView>, trailing: Seq<char>, n: nat) -> Seq<char>
    decreases n,
{
    if n == 0 {
        Seq::empty()
    } else {
        number_boundaries_upto(cs, trailing, (n - 1) as nat) + cs[n - 1].0
            + number_boundary_replacement(cs, trailing, n - 1)
    }
}

/// The text with every match of the digit-run pattern replaced.
pub open spec fn replaced_number_boundaries(cs: Seq<CaptureView>, trailing: Seq<char>) -> Seq<char> {
    number_boundaries_upto(cs, trailing, cs.len()) + trailing
}

/// The rewritten text of the first `n` matches of the separator-run pattern:
/// each match gives way to its uppercased group.
pub open spec fn separator_runs_upto(cs: Seq<CaptureView>, n: nat) -> Seq<char>
    decreases n,
{
    if n == 0 {
        Seq::empty()
    } else {
        separator_runs_upto(cs, (n - 1) as nat) + cs[n - 1].0 + unicode_uppercase(cs[n - 1].2)
    }
}

/// The text with every match of the separator-run pattern replaced.
pub open spec fn replaced_separator_runs(cs: Seq<CaptureView>, trailing: Seq<char>) -> Seq<char> {
    separator_runs_upto(cs, cs.len()) + trailing
}

/// Replaces each match of the digit-run pattern, given as captures and the
/// text after the last of them, as `number_boundary_replacement` says.
pub fn replace_number_boundaries(captures: &Vec<RegexCapture>, trailing: &str) -> (r: String)
    ensures
        r@ == replaced_number_boundaries(captures_view(captures@), trailing@),
{
    let ghost cs = captures_view(captures@);
    let n = captures.len();
    // The text the captures were cut from.
    let mut text: Vec<char> = Vec::new();
    let mut i: usize = 0;
    while i < n
        invariant
            n == captures@.len(),
            cs == captures_view(captures@),
            i <= n,
            text@ == captures_text(cs.take(i as int)),
        decreases n - i,
    {
        let c = &captures[i];
        extend_str(&mut text, c.before.as_str());
        extend_str(&mut text, c.head.as_str());
        extend_str(&mut text, c.group.as_str());
        extend_str(&mut text, c.tail.as_str());
        proof {
            lemma_captures_text_step(cs, i as int);
        }
        i = i + 1;
    }
    assert(cs.take(n as int) =~= cs);
    extend_str(&mut text, trailing);
    let text_len = text.len();
    let mut out: Vec<char> = Vec::new();
    let mut off: usize = 0;
    i = 0;
    while i < n
        invariant
            n == captures@.len(),
            cs == captures_view(captures@),
            i <= n,
            text@ == captures_text(cs) + trailing@,
            text_len == text@.len(),
            off == captures_text(cs.take(i as int)).len(),
            out@ == number_boundaries_upto(cs, trailing@, i as nat),
        decreases n - i,
    {
        let c = &captures[i];
        let before = chars_of(c.before.as_str());
        let mut whole = chars_of(c.head.as_str());
        let group = chars_of(c.group.as_str());
        let tail = chars_of(c.tail.as_str());
        extend_chars(&mut whole, group.as_slice());
        extend_chars(&mut whole, tail.as_slice());
        proof {
            lemma_captures_text_step(cs, i as int);
            lemma_captures_text_take(cs, i + 1);
            assert(cs[i as int] == captures@[i as int]@);
            assert(whole@ == cs[i as int].1 + cs[i as int].2 + cs[i as int].3);
            assert(capture_text(cs[i as int]) =~= before@ + whole@);
            assert(captures_text(cs.take(i + 1)).len() == off + before@.len() + whole@.len());
            assert(off + before@.len() + whole@.len() <= text@.len());
        }
        let end = off + before.len() + whole.len();
        extend_chars(&mut out, before.as_slice());
        let keep = (end < text_len && is_separator(text[end])) || group.len() == 0;
        if keep {
            extend_chars(&mut out, whole.as_slice());
        } else {
            let cut = whole.len() - group.len();
            let mut k: usize = 0;
            while k < cut
                invariant
                    cut <= whole.len(),
                    k <= cut,
                    out@ == number_boundaries_upto(cs, trailing@, i as nat) + before@ + whole@.take(k as int),
                decreases cut - k,
            {
                out.push(whole[k]);
                k = k + 1;
                assert(whole@.take(k as int) =~= whole@.take(k - 1).push(whole@[k - 1]));
            }
            let up = upper(c.group.as_str());
            extend_str(&mut out, up.as_str());
        }
        off = end;
        i = i + 1;
    }
    assert(cs.take(n as int) =~= cs);
    extend_str(&mut out, trailing);
    string_of(out.as_slice())
}

/// Replaces each match of the separator-run pattern by its uppercased group.
pub fn replace_separator_runs(captures: &Vec<RegexCapture>, trailing: &str) -> (r: String)
    ensures
        r@ == replaced_separator_runs(captures_view(captures@), trailing@),
{
    let ghost cs = captures_view(captures@);
    let n = captures.len();
    let mut out: Vec<char> = Vec::new();
    let mut i: usize = 0;
    while i < n
        invariant
            n == captures@.len(),
            cs == captures_view(captures@),
            i <= n,
            out@ == separator_runs_upto(cs, i as nat),
        decreases n - i,
    {
        let c = &captures[i];
        extend_str(&mut out, c.before.as_str());
        let up = upper(c.group.as_str());
        extend_str(&mut out, up.as_str());
        i = i + 1;
    }
    extend_str(&mut out, trailing);
    string_of(out.as_slice())
}

} // verus!
