//! What each step is for, stated over its inputs and results: the join of
//! fragments, the two regular-expression rewrites, the dash before the last
//! capital of an uppercase run, and the lowered leading capital.

use vstd::prelude::*;
use crate::text::{unicode_is_uppercase, unicode_is_lowercase, unicode_lowercase, unicode_uppercase};
use crate::steps::{
    CharClass, leading_run, lemma_leading_run_facts, without_leading_separators,
    js_trim, separator_char, cased_upper, boundary_scan, lowered_leading_capital,
};
use crate::captures::{
    CaptureView, replaced_number_boundaries, replaced_separator_runs, separator_runs_upto,
    number_boundaries_upto, captures_text, number_boundary_replacement,
    lemma_captures_text_append,
};
use crate::{joined_fragments, leading_marks, word_part};

verus! {

proof fn lemma_joined_append(a: Seq<Seq<char>>, b: Seq<Seq<char>>)
    requires
        joined_fragments(a).len() > 0,
    ensures
        joined_fragments(a + b) == if joined_fragments(b).len() == 0 {
            joined_fragments(a)
        } else {
            joined_fragments(a) + seq!['-'] + joined_fragments(b)
        },
        joined_fragments(a + b).len() > 0,
    decreases b.len(),
{
    if b.len() == 0 {
        assert(a + b =~= a);
    } else {
        lemma_joined_append(a, b.drop_last());
        assert((a + b).drop_last() =~= a + b.drop_last());
        assert((a + b).last() == b.last());
        let ja = joined_fragments(a);
        let jb = joined_fragments(b.drop_last());
        let t = js_trim(b.last());
        if t.len() > 0 && jb.len() > 0 {
            assert(ja + seq!['-'] + jb + seq!['-'] + t =~= ja + seq!['-'] + (jb + seq!['-'] + t));
        }
    }
}

/// Joining two lists of fragments that each give a non-empty join puts
/// exactly one `-` between the two joins.
pub proof fn law_joins_are_separated_by_one_dash(a: Seq<Seq<char>>, b: Seq<Seq<char>>)
    requires
        joined_fragments(a).len() > 0,
        joined_fragments(b).len() > 0,
    ensures
        joined_fragments(a + b) == joined_fragments(a) + seq!['-'] + joined_fragments(b),
{
    lemma_joined_append(a, b);
}

/// A list of fragments whose join is empty adds nothing to a join.
pub proof fn law_blank_list_adds_nothing(a: Seq<Seq<char>>, b: Seq<Seq<char>>)
    requires
        joined_fragments(b).len() == 0,
    ensures
        joined_fragments(a + b) == joined_fragments(a),
    decreases b.len(),
{
    if b.len() > 0 {
        law_blank_list_adds_nothing(a, b.drop_last());
        assert((a + b).drop_last() =~= a + b.drop_last());
        assert((a + b).last() == b.last());
        if js_trim(b.last()).len() > 0 {
            assert(joined_fragments(b.drop_last()).len() == 0 ==> joined_fragments(b).len() > 0);
        }
    } else {
        assert(a + b =~= a);
    }
}

/// One fragment joins as itself, trimmed.
pub proof fn law_one_fragment_joins_as_trimmed(p: Seq<char>)
    ensures
        joined_fragments(seq![p]) == js_trim(p),
{
    let ps = seq![p];
    assert(ps.drop_last() =~= Seq::<Seq<char>>::empty());
    assert(ps.last() == p);
    assert(joined_fragments(ps.drop_last()) == Seq::<char>::empty());
    if js_trim(p).len() == 0 {
        assert(js_trim(p) =~= Seq::<char>::empty());
    }
}

proof fn lemma_one_capture_text(b: Seq<char>, h: Seq<char>, g: Seq<char>, tl: Seq<char>)
    ensures
        captures_text(seq![(b, h, g, tl)]) == b + h + g + tl,
{
    let cs = seq![(b, h, g, tl)];
    assert(cs.drop_last() =~= Seq::<CaptureView>::empty());
    assert(cs.last() == (b, h, g, tl));
    assert(captures_text(cs.drop_last()) == Seq::<char>::empty());
    assert(captures_text(cs) =~= b + h + g + tl);
}

/// A digit-run match followed by a character that is not a separator (or by
/// the end of the text), whose group is not empty and ends the match, becomes
/// the match's head followed by its uppercased group, whatever the head holds
/// (a single digit included). The text around it is kept.
pub proof fn law_digit_run_match_uppercases_group(
    b: Seq<char>,
    h: Seq<char>,
    g: Seq<char>,
    t: Seq<char>,
)
    requires
        g.len() > 0,
        t.len() == 0 || !separator_char(t[0]),
    ensures
        replaced_number_boundaries(seq![(b, h, g, Seq::<char>::empty())], t) == b + h
            + unicode_uppercase(g) + t,
{
    let e = Seq::<char>::empty();
    let cs = seq![(b, h, g, e)];
    lemma_one_capture_text(b, h, g, e);
    assert(cs.take(1) =~= cs);
    let whole = h + g + e;
    assert(whole.take(whole.len() - g.len()) =~= h);
    let text = captures_text(cs) + t;
    let end = (b + h + g + e).len();
    if end < text.len() {
        assert(text[end as int] == t[0]);
    }
    assert(number_boundaries_upto(cs, t, 0) == Seq::<char>::empty());
    assert(replaced_number_boundaries(cs, t) =~= b + h + unicode_uppercase(g) + t);
}

/// A digit-run match followed by a separator is kept as it is.
pub proof fn law_digit_run_match_before_separator_is_kept(
    b: Seq<char>,
    h: Seq<char>,
    g: Seq<char>,
    tl: Seq<char>,
    t: Seq<char>,
)
    requires
        t.len() > 0,
        separator_char(t[0]),
    ensures
        replaced_number_boundaries(seq![(b, h, g, tl)], t) == b + h + g + tl + t,
{
    let cs = seq![(b, h, g, tl)];
    lemma_one_capture_text(b, h, g, tl);
    assert(cs.take(1) =~= cs);
    let text = captures_text(cs) + t;
    let end = (b + h + g + tl).len();
    assert(text[end as int] == t[0]);
    assert(number_boundaries_upto(cs, t, 0) == Seq::<char>::empty());
    assert(replaced_number_boundaries(cs, t) =~= b + h + g + tl + t);
}

/// A digit-run match with an empty group is kept as it is.
pub proof fn law_digit_run_match_without_group_is_kept(
    b: Seq<char>,
    h: Seq<char>,
    tl: Seq<char>,
    t: Seq<char>,
)
    ensures
        replaced_number_boundaries(seq![(b, h, Seq::<char>::empty(), tl)], t) == b + h + tl + t,
{
    let e = Seq::<char>::empty();
    let cs = seq![(b, h, e, tl)];
    lemma_one_capture_text(b, h, e, tl);
    assert(cs.take(1) =~= cs);
    assert(number_boundaries_upto(cs, t, 0) == Seq::<char>::empty());
    assert(replaced_number_boundaries(cs, t) =~= b + h + tl + t);
}

proof fn lemma_number_replacement_split(a: Seq<CaptureView>, b: Seq<CaptureView>, t: Seq<char>, i: int)
    requires
        0 <= i < a.len() + b.len(),
    ensures
        i < a.len() ==> number_boundary_replacement(a + b, t, i) == number_boundary_replacement(
            a,
            captures_text(b) + t,
            i,
        ),
        i >= a.len() ==> number_boundary_replacement(a + b, t, i) == number_boundary_replacement(
            b,
            t,
            i - a.len(),
        ),
{
    let ab = a + b;
    let ta = captures_text(a);
    let tb = captures_text(b);
    lemma_captures_text_append(a, b);
    assert(captures_text(ab) + t =~= ta + (tb + t));
    if i < a.len() {
        assert(ab.take(i + 1) =~= a.take(i + 1));
        assert(ab[i] == a[i]);
    } else {
        let j = i - a.len();
        assert(ab[i] == b[j]);
        assert(ab.take(i + 1) =~= a + b.take(j + 1));
        lemma_captures_text_append(a, b.take(j + 1));
        let end_b = captures_text(b.take(j + 1)).len();
        let text_b = tb + t;
        if end_b < text_b.len() {
            assert((ta + text_b)[(ta.len() + end_b) as int] == text_b[end_b as int]);
        }
    }
}

proof fn lemma_number_upto_split(a: Seq<CaptureView>, b: Seq<CaptureView>, t: Seq<char>, n: nat)
    requires
        n <= a.len() + b.len(),
    ensures
        n <= a.len() ==> number_boundaries_upto(a + b, t, n) == number_boundaries_upto(
            a,
            captures_text(b) + t,
            n,
        ),
        n >= a.len() ==> number_boundaries_upto(a + b, t, n) == number_boundaries_upto(
            a,
            captures_text(b) + t,
            a.len(),
        ) + number_boundaries_upto(b, t, (n - a.len()) as nat),
    decreases n,
{
    let s = captures_text(b) + t;
    if n == 0 {
        if a.len() == 0 {
            assert(number_boundaries_upto(a, s, 0) + number_boundaries_upto(b, t, 0) =~= Seq::<
                char,
            >::empty());
        }
    } else {
        lemma_number_upto_split(a, b, t, (n - 1) as nat);
        lemma_number_replacement_split(a, b, t, n - 1);
        if n - 1 < a.len() {
            assert((a + b)[n - 1] == a[n - 1]);
            if n == a.len() {
                assert(number_boundaries_upto(b, t, 0) == Seq::<char>::empty());
                assert(number_boundaries_upto(a, s, n) + Seq::<char>::empty() =~= number_boundaries_upto(a, s, n));
            }
        } else {
            let m = (n - a.len()) as nat;
            assert((a + b)[n - 1] == b[m - 1]);
            let x = number_boundaries_upto(a, s, a.len());
            let y = number_boundaries_upto(b, t, (m - 1) as nat);
            let z = b[m - 1].0 + number_boundary_replacement(b, t, m - 1);
            assert(x + y + z =~= x + (y + z));
        }
    }
}

/// The digit-run rewrite of two runs of matches is the rewrite of the first
/// run (with the second run's text as what follows it), without that
/// following text, then the rewrite of the second run: each match's rewrite
/// depends only on the match and the text after it, and the text after the
/// last match is kept.
pub proof fn law_digit_run_rewrite_splits(a: Seq<CaptureView>, b: Seq<CaptureView>, t: Seq<char>)
    ensures
        ({
            let s = captures_text(b) + t;
            let ra = replaced_number_boundaries(a, s);
            &&& ra.len() >= s.len()
            &&& ra.skip(ra.len() - s.len()) == s
            &&& replaced_number_boundaries(a + b, t) == ra.take(ra.len() - s.len())
                + replaced_number_boundaries(b, t)
        }),
{
    let s = captures_text(b) + t;
    lemma_number_upto_split(a, b, t, (a.len() + b.len()) as nat);
    assert((a + b).len() == a.len() + b.len());
    let x = number_boundaries_upto(a, s, a.len());
    let y = number_boundaries_upto(b, t, b.len());
    let ra = x + s;
    assert(ra.skip(ra.len() - s.len()) =~= s);
    assert(ra.take(ra.len() - s.len()) =~= x);
    assert(x + y + t =~= x + (y + t));
}

/// A separator-run match gives way to its uppercased group alone: the matched
/// separators (the head) and the tail are dropped, whatever the group holds.
pub proof fn law_separator_run_match_becomes_uppercased_group(
    b: Seq<char>,
    h: Seq<char>,
    g: Seq<char>,
    tl: Seq<char>,
    t: Seq<char>,
)
    ensures
        replaced_separator_runs(seq![(b, h, g, tl)], t) == b + unicode_uppercase(g) + t,
{
    let cs = seq![(b, h, g, tl)];
    assert(separator_runs_upto(cs, 0) == Seq::<char>::empty());
    assert(replaced_separator_runs(cs, t) =~= b + unicode_uppercase(g) + t);
}

proof fn lemma_separator_runs_upto_append(a: Seq<CaptureView>, b: Seq<CaptureView>, n: nat)
    requires
        n <= b.len(),
    ensures
        separator_runs_upto(a + b, a.len() + n) == separator_runs_upto(a, a.len())
            + separator_runs_upto(b, n),
    decreases n,
{
    if n == 0 {
        assert forall|k: nat| k <= a.len() implies separator_runs_upto(a + b, k)
            == separator_runs_upto(a, k) by {
            lemma_separator_runs_upto_prefix(a, b, k);
        }
        assert(separator_runs_upto(a, a.len()) + Seq::<char>::empty() =~= separator_runs_upto(a, a.len()));
    } else {
        lemma_separator_runs_upto_append(a, b, (n - 1) as nat);
        assert((a + b)[a.len() + n - 1] == b[n - 1]);
        let x = separator_runs_upto(a, a.len());
        let y = separator_runs_upto(b, (n - 1) as nat);
        let z = b[n - 1].0 + unicode_uppercase(b[n - 1].2);
        assert(x + y + z =~= x + (y + z));
    }
}

proof fn lemma_separator_runs_upto_prefix(a: Seq<CaptureView>, b: Seq<CaptureView>, k: nat)
    requires
        k <= a.len(),
    ensures
        separator_runs_upto(a + b, k) == separator_runs_upto(a, k),
    decreases k,
{
    if k > 0 {
        lemma_separator_runs_upto_prefix(a, b, (k - 1) as nat);
        assert((a + b)[k - 1] == a[k - 1]);
    }
}

/// The separator rewrite of two runs of matches is the rewrite of the first
/// followed by the rewrite of the second: no match's rewrite looks at another.
pub proof fn law_separator_rewrite_splits(a: Seq<CaptureView>, b: Seq<CaptureView>, t: Seq<char>)
    ensures
        replaced_separator_runs(a + b, t) == replaced_separator_runs(a, Seq::<char>::empty())
            + replaced_separator_runs(b, t),
{
    lemma_separator_runs_upto_append(a, b, b.len());
    let x = separator_runs_upto(a, a.len());
    assert(x + Seq::<char>::empty() =~= x);
    assert(x + separator_runs_upto(b, b.len()) + t =~= x + (separator_runs_upto(b, b.len()) + t));
}

/// Without run-keeping, two uppercase letters followed by a lowercase one get
/// a dash before the second uppercase letter wherever the character three
/// places back in the text written so far is not a dash, however long that
/// text is.
pub proof fn law_dash_before_last_capital_without_keeping(s: Seq<char>, i: int)
    requires
        2 <= i < s.len(),
        cased_upper(s[i - 2]),
        cased_upper(s[i - 1]),
        !unicode_is_lowercase(s[i - 1]),
        unicode_is_lowercase(s[i]),
        !unicode_is_uppercase(s[i]),
        ({
            let out = boundary_scan(s.take(i), false).0;
            out.len() > 2 && out[out.len() - 3] != '-'
        }),
    ensures
        boundary_scan(s.take(i + 1), false).0 == boundary_scan(s.take(i), false).0.drop_last() + seq![
            '-',
            s[i - 1],
            s[i],
        ],
{
    crate::scan_laws::lemma_dash_before_last_capital(s, i, false);
    let st = boundary_scan(s.take(i), false);
    let n = st.0.len();
    assert(st.0[n - 1] == s[i - 1]);
    assert(st.0.take(n - 1) =~= st.0.drop_last());
    assert((st.0.take(n - 1) + seq!['-', s[i - 1]]).push(s[i]) =~= st.0.drop_last() + seq![
        '-',
        s[i - 1],
        s[i],
    ]);
}

/// Without run-keeping, where the text written so far is at most two
/// characters long, no dash is moved: a lowercase letter after two uppercase
/// letters is simply written.
pub proof fn law_no_dash_moved_in_short_text(s: Seq<char>, i: int)
    requires
        2 <= i < s.len(),
        cased_upper(s[i - 2]),
        cased_upper(s[i - 1]),
        !unicode_is_lowercase(s[i - 1]),
        unicode_is_lowercase(s[i]),
        !unicode_is_uppercase(s[i]),
        boundary_scan(s.take(i), false).0.len() <= 2,
    ensures
        boundary_scan(s.take(i + 1), false).0 == boundary_scan(s.take(i), false).0.push(s[i]),
{
    crate::scan_laws::lemma_dash_before_last_capital(s, i, false);
}

/// Without run-keeping, where the character three places back in the text
/// written so far is a dash, a lowercase letter after two uppercase letters is
/// simply written: the run before it is kept whole.
pub proof fn law_no_dash_moved_after_dash_three_back(s: Seq<char>, i: int)
    requires
        2 <= i < s.len(),
        cased_upper(s[i - 2]),
        cased_upper(s[i - 1]),
        !unicode_is_lowercase(s[i - 1]),
        unicode_is_lowercase(s[i]),
        !unicode_is_uppercase(s[i]),
        ({
            let out = boundary_scan(s.take(i), false).0;
            out.len() > 2 && out[out.len() - 3] == '-'
        }),
    ensures
        boundary_scan(s.take(i + 1), false).0 == boundary_scan(s.take(i), false).0.push(s[i]),
{
    crate::scan_laws::lemma_dash_before_last_capital(s, i, false);
}

/// A character that is not uppercase, after a character that is not
/// lowercase which itself follows the start or a character that is neither
/// uppercase nor cased as uppercase, is copied with no dash: a single capital
/// starts no run.
pub proof fn law_no_dash_after_single_capital(s: Seq<char>, i: int, keep_runs: bool)
    requires
        1 <= i < s.len(),
        i == 1 || (!unicode_is_uppercase(s[i - 2]) && !cased_upper(s[i - 2])),
        !unicode_is_lowercase(s[i - 1]),
        !unicode_is_uppercase(s[i]),
    ensures
        boundary_scan(s.take(i + 1), keep_runs).0 == boundary_scan(s.take(i), keep_runs).0.push(s[i]),
{
    crate::scan_laws::lemma_no_run_before(s, i, keep_runs);
}

/// A text that starts with an uppercase letter not followed by another
/// uppercase letter (or by nothing) has that letter lowercased and the rest
/// kept, whatever the second character is.
pub proof fn law_lone_leading_capital_is_lowered(s: Seq<char>)
    requires
        s.len() > 0,
        unicode_is_uppercase(s[0]),
        s.len() == 1 || !unicode_is_uppercase(s[1]),
    ensures
        lowered_leading_capital(s) == unicode_lowercase(seq![s[0]]) + s.skip(1),
{
}

/// A text that does not start with an uppercase letter, or whose first two
/// characters are both uppercase, is kept.
pub proof fn law_other_text_keeps_its_start(s: Seq<char>)
    requires
        s.len() == 0 || !unicode_is_uppercase(s[0]) || (s.len() > 1 && unicode_is_uppercase(s[1])),
    ensures
        lowered_leading_capital(s) == s,
{
}


/// Stripping leading separators removes a prefix made only of separators and
/// keeps the rest, which does not start with a separator.
pub proof fn law_stripping_removes_only_leading_separators(s: Seq<char>)
    ensures
        ({
            let r = without_leading_separators(s);
            let k = s.len() - r.len();
            &&& r.len() <= s.len()
            &&& r == s.skip(k)
            &&& forall|j: int| 0 <= j < k ==> separator_char(#[trigger] s[j])
            &&& r.len() > 0 ==> !separator_char(r[0])
        }),
{
    lemma_leading_run_facts(s, CharClass::Separator);
    let r = without_leading_separators(s);
    let k = leading_run(s, CharClass::Separator) as int;
    if r.len() > 0 {
        assert(r[0] == s[k]);
    }
}

/// The input after trimming splits into its leading `_`/`$` and the word: the
/// marks are only `_` and `$`, and the word does not start with either.
pub proof fn law_marks_and_word_split_the_trimmed_input(s: Seq<char>)
    ensures
        leading_marks(s) + word_part(s) == js_trim(s),
        forall|j: int| 0 <= j < leading_marks(s).len() ==> #[trigger] leading_marks(s)[j] == '_'
            || leading_marks(s)[j] == '$',
        word_part(s).len() > 0 ==> word_part(s)[0] != '_' && word_part(s)[0] != '$',
{
    let t = js_trim(s);
    lemma_leading_run_facts(t, CharClass::LeadingMark);
    let k = leading_run(t, CharClass::LeadingMark) as int;
    assert(t.take(k) + t.skip(k) =~= t);
    assert forall|j: int| 0 <= j < leading_marks(s).len() implies #[trigger] leading_marks(s)[j] == '_'
        || leading_marks(s)[j] == '$' by {
        assert(leading_marks(s)[j] == t[j]);
        assert(crate::steps::in_class(CharClass::LeadingMark, t[j]));
    }
    if word_part(s).len() > 0 {
        assert(word_part(s)[0] == t[k]);
    }
}

} // verus!
