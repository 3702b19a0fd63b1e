//! Character-level building blocks: Unicode case queries and case mappings
//! (answered by the standard library), and conversions between `&str`,
//! `String` and `Vec<char>`.

use vstd::prelude::*;

verus! {

/// Whether the character has the Unicode `Uppercase` property, as
/// `char::is_uppercase` answers it.
pub uninterp spec fn unicode_is_uppercase(c: char) -> bool;

/// Whether the character has the Unicode `Lowercase` property, as
/// `char::is_lowercase` answers it.
pub uninterp spec fn unicode_is_lowercase(c: char) -> bool;

/// Whether the character has the Unicode `Alphabetic` property, as
/// `char::is_alphabetic` answers it.
pub uninterp spec fn unicode_is_alphabetic(c: char) -> bool;

/// The text that `str::to_lowercase` gives for the given text.
pub uninterp spec fn unicode_lowercase(s: Seq<char>) -> Seq<char>;

/// The text that `str::to_uppercase` gives for the given text.
pub uninterp spec fn unicode_uppercase(s: Seq<char>) -> Seq<char>;

/// Calls `char::is_uppercase`. The contract only names its answer: the
/// Unicode property tables are not restated here.
#[verifier::external_body]
pub(crate) fn is_upper(c: char) -> (b: bool)
    ensures
        b == unicode_is_uppercase(c),
{
    c.is_uppercase()
}

/// Calls `char::is_lowercase`; the answer is named, not restated.
#[verifier::external_body]
pub(crate) fn is_lower(c: char) -> (b: bool)
    ensures
        b == unicode_is_lowercase(c),
{
    c.is_lowercase()
}

/// Calls `char::is_alphabetic`; the answer is named, not restated.
#[verifier::external_body]
pub(crate) fn is_alphabetic(c: char) -> (b: bool)
    ensures
        b == unicode_is_alphabetic(c),
{
    c.is_alphabetic()
}

/// Calls `str::to_lowercase`. Its result, a function of the text alone, is
/// named; the Unicode case mapping (with its context rules) is not restated.
#[verifier::external_body]
pub(crate) fn lower(s: &str) -> (r: String)
    ensures
        r@ == unicode_lowercase(s@),
{
    s.to_lowercase()
}

/// Calls `str::to_uppercase`; its result is named, not restated.
#[verifier::external_body]
pub(crate) fn upper(s: &str) -> (r: String)
    ensures
        r@ == unicode_uppercase(s@),
{
    s.to_uppercase()
}

/// Calls `String::push`, which appends one character.
#[verifier::external_body]
fn push_char(s: &mut String, c: char)
    ensures
        final(s)@ == old(s)@.push(c),
{
    s.push(c)
}

/// The characters of a text, in order.
pub fn chars_of(s: &str) -> (v: Vec<char>)
    ensures
        v@ == s@,
{
    let mut v: Vec<char> = Vec::new();
    for c in it: s.chars()
        invariant
            v@ == it.seq().take(it.index() as int),
            it.seq() == s@,
    {
        v.push(c);
    }
    v
}

/// The text made of the given characters, in order.
pub fn string_of(v: &[char]) -> (s: String)
    ensures
        s@ == v@,
{
    let mut s = String::new();
    let mut i: usize = 0;
    while i < v.len()
        invariant
            i <= v.len(),
            s@ == v@.take(i as int),
        decreases v.len() - i,
    {
        push_char(&mut s, v[i]);
        i = i + 1;
        assert(v@.take(i as int) =~= v@.take(i - 1).push(v@[i - 1]));
    }
    assert(v@.take(v.len() as int) =~= v@);
    s
}

/// Appends the characters of `s`.
pub fn extend_chars(out: &mut Vec<char>, s: &[char])
    ensures
        final(out)@ == old(out)@ + s@,
{
    let mut i: usize = 0;
    while i < s.len()
        invariant
            i <= s.len(),
            out@ == old(out)@ + s@.take(i as int),
        decreases s.len() - i,
    {
        out.push(s[i]);
        i = i + 1;
        assert(s@.take(i as int) =~= s@.take(i - 1).push(s@[i - 1]));
    }
    assert(s@.take(s.len() as int) =~= s@);
}

/// Appends the characters of the text `s`.
pub fn extend_str(out: &mut Vec<char>, s: &str)
    ensures
        final(out)@ == old(out)@ + s@,
{
    let v = chars_of(s);
    extend_chars(out, v.as_slice());
}

/// The characters of `s` from `from` up to `to`.
pub fn copy_range(s: &[char], from: usize, to: usize) -> (r: Vec<char>)
    requires
        from <= to <= s.len(),
    ensures
        r@ == s@.subrange(from as int, to as int),
{
    let mut r: Vec<char> = Vec::new();
    let mut i = from;
    while i < to
        invariant
            from <= i <= to,
            to <= s.len(),
            r@ == s@.subrange(from as int, i as int),
        decreases to - i,
    {
        r.push(s[i]);
        i = i + 1;
        assert(s@.subrange(from as int, i as int) =~= s@.subrange(from as int, i - 1).push(s@[i - 1]));
    }
    r
}

/// The text made of the one character `c`.
pub fn one_char_string(c: char) -> (r: String)
    ensures
        r@ == seq![c],
{
    let v = vec![c];
    assert(v@ =~= seq![c]);
    string_of(v.as_slice())
}

} // verus!
