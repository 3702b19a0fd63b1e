//! The character classes of the conversion and the steps that rewrite the
//! text between trimming and the final collapse of separators.

use vstd::prelude::*;
use crate::text::{
    unicode_is_uppercase, unicode_is_lowercase, unicode_is_alphabetic, unicode_lowercase,
    unicode_uppercase, is_upper, is_lower, is_alphabetic, lower, upper, chars_of,
    copy_range, one_char_string,
};

verus! {

/// `_`, `.`, `-` and space: the characters that separate words.
pub open spec fn separator_char(c: char) -> bool {
    c == '_' || c == '.' || c == '-' || c == ' '
}

/// The whitespace set of JavaScript's `String.prototype.trim()`.
pub open spec fn js_whitespace_char(c: char) -> bool {
    ||| c == '\u{0009}' || c == '\u{000A}' || c == '\u{000B}' || c == '\u{000C}'
    ||| c == '\u{000D}' || c == '\u{0020}' || c == '\u{00A0}' || c == '\u{1680}'
    ||| '\u{2000}' <= c <= '\u{200A}'
    ||| c == '\u{2028}' || c == '\u{2029}' || c == '\u{202F}' || c == '\u{205F}'
    ||| c == '\u{3000}' || c == '\u{FEFF}'
}

/// `0` to `9`.
pub open spec fn ascii_digit_char(c: char) -> bool {
    '0' <= c <= '9'
}

/// Whether `c` separates words.
pub fn is_separator(c: char) -> (b: bool)
    ensures
        b == separator_char(c),
{
    c == '_' || c == '.' || c == '-' || c == ' '
}

/// Whether `c` is whitespace for `String.prototype.trim()`.
pub fn is_js_whitespace(c: char) -> (b: bool)
    ensures
        b == js_whitespace_char(c),
{
    c == '\u{0009}' || c == '\u{000A}' || c == '\u{000B}' || c == '\u{000C}' || c == '\u{000D}'
        || c == '\u{0020}' || c == '\u{00A0}' || c == '\u{1680}' || ('\u{2000}' <= c && c
        <= '\u{200A}') || c == '\u{2028}' || c == '\u{2029}' || c == '\u{202F}' || c
        == '\u{205F}' || c == '\u{3000}' || c == '\u{FEFF}'
}

/// Whether `c` is one of `0` to `9`.
pub fn is_ascii_digit(c: char) -> (b: bool)
    ensures
        b == ascii_digit_char(c),
{
    '0' <= c && c <= '9'
}


/// The classes of characters that the conversion strips from an end of a text.
pub enum CharClass {
    /// JavaScript's whitespace.
    JsWhitespace,
    /// Word separators.
    Separator,
    /// `_` and `$`, which a converted identifier keeps in front.
    LeadingMark,
}

pub open spec fn in_class(k: CharClass, c: char) -> bool {
    match k {
        CharClass::JsWhitespace => js_whitespace_char(c),
        CharClass::Separator => separator_char(c),
        CharClass::LeadingMark => c == '_' || c == '$',
    }
}

/// The length of the longest prefix of `s` made of characters of the class.
pub open spec fn leading_run(s: Seq<char>, k: CharClass) -> nat
    decreases s.len(),
{
    if s.len() > 0 && in_class(k, s[0]) {
        1 + leading_run(s.drop_first(), k)
    } else {
        0
    }
}

/// The length of the longest suffix of `s` made of characters of the class.
pub open spec fn trailing_run(s: Seq<char>, k: CharClass) -> nat
    decreases s.len(),
{
    if s.len() > 0 && in_class(k, s.last()) {
        1 + trailing_run(s.drop_last(), k)
    } else {
        0
    }
}

/// `s` without its leading and trailing JavaScript whitespace.
pub open spec fn js_trim(s: Seq<char>) -> Seq<char> {
    let a = s.skip(leading_run(s, CharClass::JsWhitespace) as int);
    a.take(a.len() - trailing_run(a, CharClass::JsWhitespace))
}

/// `s` without its leading separators.
pub open spec fn without_leading_separators(s: Seq<char>) -> Seq<char> {
    s.skip(leading_run(s, CharClass::Separator) as int)
}

pub proof fn lemma_leading_run(s: Seq<char>, k: CharClass, i: int)
    requires
        0 <= i <= s.len(),
        forall|j: int| 0 <= j < i ==> in_class(k, #[trigger] s[j]),
        i == s.len() || !in_class(k, s[i]),
    ensures
        leading_run(s, k) == i,
    decreases i,
{
    if i > 0 {
        assert(in_class(k, s[0]));
        let t = s.drop_first();
        assert forall|j: int| 0 <= j < i - 1 implies in_class(k, #[trigger] t[j]) by {
            assert(t[j] == s[j + 1]);
        }
        if i < s.len() {
            assert(t[i - 1] == s[i]);
        }
        lemma_leading_run(t, k, i - 1);
    }
}

pub proof fn lemma_trailing_run(s: Seq<char>, k: CharClass, j: int)
    requires
        0 <= j <= s.len(),
        forall|m: int| j <= m < s.len() ==> in_class(k, #[trigger] s[m]),
        j == 0 || !in_class(k, s[j - 1]),
    ensures
        trailing_run(s, k) == s.len() - j,
    decreases s.len() - j,
{
    if j < s.len() {
        assert(in_class(k, s[s.len() - 1]));
        let t = s.drop_last();
        assert forall|m: int| j <= m < t.len() implies in_class(k, #[trigger] t[m]) by {
            assert(t[m] == s[m]);
        }
        if j > 0 {
            assert(t[j - 1] == s[j - 1]);
        }
        lemma_trailing_run(t, k, j);
    }
}

/// What the leading run is: all its characters are in the class, and the
/// character after it (if any) is not.
pub proof fn lemma_leading_run_facts(s: Seq<char>, k: CharClass)
    ensures
        leading_run(s, k) <= s.len(),
        forall|j: int| 0 <= j < leading_run(s, k) ==> in_class(k, #[trigger] s[j]),
        leading_run(s, k) < s.len() ==> !in_class(k, s[leading_run(s, k) as int]),
    decreases s.len(),
{
    if s.len() > 0 && in_class(k, s[0]) {
        let t = s.drop_first();
        lemma_leading_run_facts(t, k);
        assert forall|j: int| 0 <= j < leading_run(s, k) implies in_class(k, #[trigger] s[j]) by {
            if j > 0 {
                assert(s[j] == t[j - 1]);
            }
        }
        if leading_run(s, k) < s.len() {
            assert(s[leading_run(s, k) as int] == t[leading_run(t, k) as int]);
        }
    }
}

/// What the trailing run is: all its characters are in the class, and the
/// character before it (if any) is not.
pub proof fn lemma_trailing_run_facts(s: Seq<char>, k: CharClass)
    ensures
        trailing_run(s, k) <= s.len(),
        forall|m: int| s.len() - trailing_run(s, k) <= m < s.len() ==> in_class(k, #[trigger] s[m]),
        trailing_run(s, k) < s.len() ==> !in_class(k, s[s.len() - trailing_run(s, k) - 1]),
    decreases s.len(),
{
    if s.len() > 0 && in_class(k, s.last()) {
        let t = s.drop_last();
        lemma_trailing_run_facts(t, k);
        assert forall|m: int| s.len() - trailing_run(s, k) <= m < s.len() implies in_class(
            k,
            #[trigger] s[m],
        ) by {
            if m < s.len() - 1 {
                assert(s[m] == t[m]);
            }
        }
        if trailing_run(s, k) < s.len() {
            assert(s[s.len() - trailing_run(s, k) - 1] == t[t.len() - trailing_run(t, k) - 1]);
        }
    }
}

/// `js_trim` cuts exactly the range `[i, j)` whose ends are the first and the
/// last character that is not whitespace (an empty range where there is none).
pub proof fn lemma_js_trim_range(x: Seq<char>, i: int, j: int)
    requires
        0 <= i <= j <= x.len(),
        forall|m: int| 0 <= m < i ==> js_whitespace_char(#[trigger] x[m]),
        forall|m: int| j <= m < x.len() ==> js_whitespace_char(#[trigger] x[m]),
        i < j ==> !js_whitespace_char(x[i]) && !js_whitespace_char(x[j - 1]),
    ensures
        js_trim(x) == x.subrange(i, j),
{
    let ws = CharClass::JsWhitespace;
    if i < j {
        lemma_leading_run(x, ws, i);
        let a = x.skip(i);
        assert forall|m: int| j - i <= m < a.len() implies in_class(ws, #[trigger] a[m]) by {
            assert(a[m] == x[m + i]);
        }
        assert(a[j - i - 1] == x[j - 1]);
        lemma_trailing_run(a, ws, j - i);
        assert(a.take(j - i) =~= x.subrange(i, j));
    } else {
        assert forall|m: int| 0 <= m < x.len() implies in_class(ws, #[trigger] x[m]) by {
            if m >= i {
                assert(j <= m);
            }
        }
        lemma_leading_run(x, ws, x.len() as int);
        assert(x.skip(x.len() as int).len() == 0);
        assert(x.subrange(i, j).len() == 0);
        assert(js_trim(x) =~= x.subrange(i, j));
    }
}

/// `js_trim(x)` is the range of `x` from its leading run of whitespace to its
/// trailing one, and that range begins and ends with a character that is not
/// whitespace.
pub proof fn lemma_js_trim_bounds(x: Seq<char>) -> (r: (int, int))
    ensures
        0 <= r.0 <= r.1 <= x.len(),
        forall|m: int| 0 <= m < r.0 ==> js_whitespace_char(#[trigger] x[m]),
        forall|m: int| r.1 <= m < x.len() ==> js_whitespace_char(#[trigger] x[m]),
        r.0 < r.1 ==> !js_whitespace_char(x[r.0]) && !js_whitespace_char(x[r.1 - 1]),
        r.0 == r.1 ==> r.0 == 0,
        js_trim(x) == x.subrange(r.0, r.1),
{
    let ws = CharClass::JsWhitespace;
    lemma_leading_run_facts(x, ws);
    let i = leading_run(x, ws) as int;
    let a = x.skip(i);
    lemma_trailing_run_facts(a, ws);
    let j = i + a.len() - trailing_run(a, ws);
    assert forall|m: int| j <= m < x.len() implies js_whitespace_char(#[trigger] x[m]) by {
        assert(x[m] == a[m - i]);
        assert(in_class(ws, a[m - i]));
    }
    if i < j {
        assert(x[j - 1] == a[j - 1 - i]);
        lemma_js_trim_range(x, i, j);
        (i, j)
    } else {
        assert forall|m: int| 0 <= m < x.len() implies js_whitespace_char(#[trigger] x[m]) by {
            if m >= i {
                assert(j <= m);
            }
        }
        lemma_js_trim_range(x, 0, 0);
        (0, 0)
    }
}

/// Removes leading and trailing JavaScript whitespace (`String.prototype.trim()`).
pub fn trim_js_whitespace(s: &[char]) -> (r: Vec<char>)
    ensures
        r@ == js_trim(s@),
        r@.len() > 0 ==> !js_whitespace_char(r@[0]) && !js_whitespace_char(r@.last()),
{
    let n = s.len();
    let mut i: usize = 0;
    while i < n && is_js_whitespace(s[i])
        invariant
            n == s.len(),
            i <= n,
            forall|j: int| 0 <= j < i ==> js_whitespace_char(#[trigger] s@[j]),
        decreases n - i,
    {
        i = i + 1;
    }
    proof {
        lemma_leading_run(s@, CharClass::JsWhitespace, i as int);
    }
    let mut j: usize = n;
    while j > i && is_js_whitespace(s[j - 1])
        invariant
            n == s.len(),
            i <= j <= n,
            forall|m: int| j <= m < n ==> js_whitespace_char(#[trigger] s@[m]),
        decreases j - i,
    {
        j = j - 1;
    }
    proof {
        let a = s@.skip(i as int);
        assert forall|m: int| j - i <= m < a.len() implies in_class(
            CharClass::JsWhitespace,
            #[trigger] a[m],
        ) by {
            assert(a[m] == s@[m + i]);
        }
        if j > i {
            assert(a[j - i - 1] == s@[j - 1]);
        }
        lemma_trailing_run(a, CharClass::JsWhitespace, j - i);
        assert(a.take(j - i) =~= s@.subrange(i as int, j as int));
        if i < j {
            assert(!js_whitespace_char(s@[i as int]));
        }
    }
    copy_range(s, i, j)
}

/// Removes the run of separators at the start of `s`.
pub fn strip_leading_separators(s: &[char]) -> (r: Vec<char>)
    ensures
        r@ == without_leading_separators(s@),
        r@.len() > 0 ==> !separator_char(r@[0]),
{
    let n = s.len();
    let mut i: usize = 0;
    while i < n && is_separator(s[i])
        invariant
            n == s.len(),
            i <= n,
            forall|j: int| 0 <= j < i ==> separator_char(#[trigger] s@[j]),
        decreases n - i,
    {
        i = i + 1;
    }
    proof {
        lemma_leading_run(s@, CharClass::Separator, i as int);
        if i < n {
            assert(!separator_char(s@[i as int]));
        }
        assert(s@.subrange(i as int, n as int) =~= s@.skip(i as int));
    }
    copy_range(s, i, n)
}


/// Whether a character, taken alone, is changed by uppercasing and kept by
/// lowercasing.
pub open spec fn cased_lower(c: char) -> bool {
    unicode_lowercase(seq![c]) == seq![c] && unicode_uppercase(seq![c]) != seq![c]
}

/// Whether a character, taken alone, is changed by lowercasing and kept by
/// uppercasing.
pub open spec fn cased_upper(c: char) -> bool {
    unicode_uppercase(seq![c]) == seq![c] && unicode_lowercase(seq![c]) != seq![c]
}

/// The state of the boundary scan: the text written so far, whether the last
/// character was lowercase, whether it was uppercase, and whether the one
/// before it was uppercase.
pub type BoundaryState = (Seq<char>, bool, bool, bool);

/// Whether the character three places back in the written text is a dash
/// (or there is no such character).
pub open spec fn third_last_is_dash(out: Seq<char>) -> bool {
    out.len() > 2 ==> out[out.len() - 3] == '-'
}

/// Writes `c` with no dash moved: a dash before it where a lowercase letter
/// is followed by an uppercase one, and the case flags updated.
pub open spec fn boundary_write(st: BoundaryState, c: char) -> BoundaryState {
    if st.1 && unicode_is_uppercase(c) {
        (st.0 + seq!['-', c], false, true, st.2)
    } else {
        (st.0.push(c), cased_lower(c), cased_upper(c), st.2)
    }
}

/// One step of the scan: where two uppercase letters are followed by a
/// lowercase one, a dash goes in before the last uppercase letter (unless the
/// dash three places back keeps the run, and runs are not to be kept), and
/// the character is then written.
pub open spec fn boundary_step(st: BoundaryState, c: char, keep_runs: bool) -> BoundaryState {
    if !(st.1 && unicode_is_uppercase(c)) && st.2 && st.3 && unicode_is_lowercase(c) && (
    !third_last_is_dash(st.0) || keep_runs) {
        let n = st.0.len();
        let moved = st.0.take(n - 1) + seq!['-', st.0[n - 1]];
        boundary_write((moved, true, false, st.2), c)
    } else {
        boundary_write(st, c)
    }
}

/// The scan over all of `s`.
pub open spec fn boundary_scan(s: Seq<char>, keep_runs: bool) -> BoundaryState
    decreases s.len(),
{
    if s.len() == 0 {
        (Seq::empty(), false, false, false)
    } else {
        boundary_step(boundary_scan(s.drop_last(), keep_runs), s.last(), keep_runs)
    }
}

/// `s` with dashes inserted at its case boundaries: before an uppercase letter
/// that follows a lowercase one, and before the last letter of an uppercase
/// run that a lowercase letter follows.
pub open spec fn marked_case_boundaries(s: Seq<char>, keep_runs: bool) -> Seq<char> {
    boundary_scan(s, keep_runs).0
}

/// Inserts `-` separators at case-transition boundaries.
pub fn preserve_camel_case(input: &[char], preserve_consecutive_uppercase: bool) -> (r: Vec<char>)
    ensures
        r@ == marked_case_boundaries(input@, preserve_consecutive_uppercase),
{
    let mut out: Vec<char> = Vec::new();
    let mut is_last_char_lower = false;
    let mut is_last_char_upper = false;
    let mut is_last_last_char_upper = false;
    let n = input.len();
    let mut index: usize = 0;
    while index < n
        invariant
            n == input.len(),
            index <= n,
            (out@, is_last_char_lower, is_last_char_upper, is_last_last_char_upper)
                == boundary_scan(input@.take(index as int), preserve_consecutive_uppercase),
            is_last_char_upper ==> out.len() > 0,
        decreases n - index,
    {
        let character = input[index];
        proof {
            assert(input@.take(index + 1).drop_last() =~= input@.take(index as int));
        }
        let upper_now = is_upper(character);
        if !(is_last_char_lower && upper_now) && is_last_char_upper && is_last_last_char_upper
            && is_lower(character) {
            let len = out.len();
            let preserved = if len > 2 {
                out[len - 3] == '-'
            } else {
                true
            };
            if !preserved || preserve_consecutive_uppercase {
                let prev = out[len - 1];
                out.set(len - 1, '-');
                out.push(prev);
                is_last_last_char_upper = is_last_char_upper;
                is_last_char_upper = false;
                is_last_char_lower = true;
            }
        }
        if is_last_char_lower && upper_now {
            out.push('-');
            out.push(character);
            is_last_char_lower = false;
            is_last_last_char_upper = is_last_char_upper;
            is_last_char_upper = true;
        } else {
            let cs = one_char_string(character);
            let lc = lower(cs.as_str());
            let uc = upper(cs.as_str());
            out.push(character);
            is_last_char_lower = lc == cs && uc != cs;
            is_last_last_char_upper = is_last_char_upper;
            is_last_char_upper = uc == cs && lc != cs;
        }
        index = index + 1;
    }
    assert(input@.take(n as int) =~= input@);
    out
}

/// `s` with a leading uppercase letter lowercased where it is not
/// followed by another uppercase letter.
pub open spec fn lowered_leading_capital(s: Seq<char>) -> Seq<char> {
    if s.len() > 0 && unicode_is_uppercase(s[0]) && !(s.len() > 1 && unicode_is_uppercase(s[1])) {
        unicode_lowercase(seq![s[0]]) + s.skip(1)
    } else {
        s
    }
}

/// Lowercases a leading capital that is not followed by another uppercase letter.
pub fn lowercase_leading_capital(s: &[char]) -> (r: Vec<char>)
    ensures
        r@ == lowered_leading_capital(s@),
{
    let n = s.len();
    if n == 0 {
        return Vec::new();
    }
    let first = s[0];
    let second_is_upper = n > 1 && is_upper(s[1]);
    if is_upper(first) && !second_is_upper {
        let low = lower(one_char_string(first).as_str());
        let mut r = chars_of(low.as_str());
        let mut i: usize = 1;
        while i < n
            invariant
                n == s.len(),
                1 <= i <= n,
                r@ == unicode_lowercase(seq![s@[0]]) + s@.subrange(1, i as int),
            decreases n - i,
        {
            r.push(s[i]);
            i = i + 1;
            assert(s@.subrange(1, i as int) =~= s@.subrange(1, i - 1).push(s@[i - 1]));
        }
        assert(s@.subrange(1, n as int) =~= s@.skip(1));
        r
    } else {
        copy_range(s, 0, n)
    }
}

/// The state of the case-preserving pass: the text written so far, whether
/// the previous character was a digit run's, and whether it was a kept
/// uppercase letter.
pub type PreservingState = (Seq<char>, bool, bool);

/// One step of the case-preserving pass, for the character at `i`.
pub open spec fn preserving_step(s: Seq<char>, i: int, st: PreservingState, keep_runs: bool) -> PreservingState {
    let c = s[i];
    let upper_now = unicode_is_uppercase(c);
    let next_upper = i + 1 < s.len() && unicode_is_uppercase(s[i + 1]);
    if st.1 && unicode_is_alphabetic(c) {
        (st.0.push(c), false, upper_now)
    } else if keep_runs && upper_now && (st.2 || next_upper) {
        (st.0.push(c), st.1, true)
    } else if ascii_digit_char(c) {
        (st.0.push(c), true, false)
    } else if separator_char(c) {
        (st.0.push(c), st.1, false)
    } else {
        (st.0 + unicode_lowercase(seq![c]), false, false)
    }
}

/// The case-preserving pass over the first `n` characters of `s`.
pub open spec fn preserving_scan(s: Seq<char>, n: nat, keep_runs: bool) -> PreservingState
    decreases n,
{
    if n == 0 {
        (Seq::empty(), false, false)
    } else {
        preserving_step(s, n - 1, preserving_scan(s, (n - 1) as nat, keep_runs), keep_runs)
    }
}

/// The case-preserving rewrite: lowercases everything but letters right
/// after digits and (where runs are kept) uppercase runs.
pub open spec fn case_preserved(s: Seq<char>, keep_runs: bool) -> Seq<char> {
    preserving_scan(s, s.len(), keep_runs).0
}

/// The pass used when a digit run is not a word boundary.
pub fn process_with_case_preservation(input: &[char], preserve_consecutive_uppercase: bool) -> (r: Vec<char>)
    ensures
        r@ == case_preserved(input@, preserve_consecutive_uppercase),
{
    let n = input.len();
    let mut result: Vec<char> = Vec::new();
    let mut previous_was_number = false;
    let mut previous_was_uppercase = false;
    let mut index: usize = 0;
    while index < n
        invariant
            n == input.len(),
            index <= n,
            (result@, previous_was_number, previous_was_uppercase) == preserving_scan(
                input@,
                index as nat,
                preserve_consecutive_uppercase,
            ),
        decreases n - index,
    {
        let character = input[index];
        let is_upper_case = is_upper(character);
        let next_is_upper = index + 1 < n && is_upper(input[index + 1]);
        if previous_was_number && is_alphabetic(character) {
            result.push(character);
            previous_was_number = false;
            previous_was_uppercase = is_upper_case;
        } else if preserve_consecutive_uppercase && is_upper_case && (previous_was_uppercase
            || next_is_upper) {
            result.push(character);
            previous_was_uppercase = true;
        } else if is_ascii_digit(character) {
            result.push(character);
            previous_was_number = true;
            previous_was_uppercase = false;
        } else if is_separator(character) {
            result.push(character);
            previous_was_uppercase = false;
        } else {
            let low = lower(one_char_string(character).as_str());
            let low_chars = chars_of(low.as_str());
            let mut k: usize = 0;
            let ghost before = result@;
            while k < low_chars.len()
                invariant
                    k <= low_chars.len(),
                    result@ == before + low_chars@.take(k as int),
                decreases low_chars.len() - k,
            {
                result.push(low_chars[k]);
                k = k + 1;
                assert(low_chars@.take(k as int) =~= low_chars@.take(k - 1).push(low_chars@[k - 1]));
            }
            assert(low_chars@.take(low_chars.len() as int) =~= low_chars@);
            previous_was_number = false;
            previous_was_uppercase = false;
        }
        index = index + 1;
    }
    result
}

} // verus!
