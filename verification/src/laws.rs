//! Properties of the conversion as a whole.

use vstd::prelude::*;
use crate::options::Options;
use crate::steps::{
    BoundaryState, boundary_scan, boundary_write, marked_case_boundaries,
    js_whitespace_char, js_trim, lemma_js_trim_bounds, lemma_js_trim_range,
};
use crate::{
    camel_cased, leading_marks, joined_fragments, word_part, cased_word, first_uppercased,
    post_processed,
};
use crate::text::{unicode_lowercase, unicode_uppercase};
use crate::steps::separator_char;

verus! {

/// Whether every character of `s` is JavaScript whitespace.
pub open spec fn all_js_whitespace(s: Seq<char>) -> bool {
    forall|m: int| 0 <= m < s.len() ==> js_whitespace_char(#[trigger] s[m])
}

/// Whitespace before and after a text does not change its trimmed form.
pub proof fn lemma_js_trim_surrounded(a: Seq<char>, s: Seq<char>, b: Seq<char>)
    requires
        all_js_whitespace(a),
        all_js_whitespace(b),
    ensures
        js_trim(a + s + b) == js_trim(s),
{
    let x = a + s + b;
    let (i, j) = lemma_js_trim_bounds(s);
    let n = a.len() as int;
    if i < j {
        assert forall|m: int| 0 <= m < n + i implies js_whitespace_char(#[trigger] x[m]) by {
            if m >= n {
                assert(x[m] == s[m - n]);
            }
        }
        assert forall|m: int| n + j <= m < x.len() implies js_whitespace_char(#[trigger] x[m]) by {
            if m < n + s.len() {
                assert(x[m] == s[m - n]);
            } else {
                assert(x[m] == b[m - n - s.len()]);
            }
        }
        assert(x[n + i] == s[i]);
        assert(x[n + j - 1] == s[j - 1]);
        lemma_js_trim_range(x, n + i, n + j);
        assert(x.subrange(n + i, n + j) =~= s.subrange(i, j));
    } else {
        assert forall|m: int| 0 <= m < x.len() implies js_whitespace_char(#[trigger] x[m]) by {
            if n <= m < n + s.len() {
                assert(x[m] == s[m - n]);
            } else if m >= n + s.len() {
                assert(x[m] == b[m - n - s.len()]);
            }
        }
        lemma_js_trim_range(x, 0, 0);
        assert(js_trim(x) =~= js_trim(s));
    }
}

/// Trimming twice is trimming once.
pub proof fn lemma_js_trim_idempotent(s: Seq<char>)
    ensures
        js_trim(js_trim(s)) == js_trim(s),
{
    let (i, j) = lemma_js_trim_bounds(s);
    let t = s.subrange(i, j);
    if i < j {
        assert(t[0] == s[i]);
        assert(t[j - i - 1] == s[j - 1]);
    }
    lemma_js_trim_range(t, 0, t.len() as int);
    assert(t.subrange(0, t.len() as int) =~= t);
}

/// JavaScript whitespace around the input does not change the result.
pub proof fn law_surrounding_whitespace_is_ignored(a: Seq<char>, s: Seq<char>, b: Seq<char>, o: Options)
    requires
        all_js_whitespace(a),
        all_js_whitespace(b),
    ensures
        camel_cased(a + s + b, o) == camel_cased(s, o),
{
    lemma_js_trim_surrounded(a, s, b);
}

/// Converting an input twice trimmed is converting it once trimmed.
pub proof fn law_trimmed_input_converts_alike(s: Seq<char>, o: Options)
    ensures
        camel_cased(js_trim(s), o) == camel_cased(s, o),
{
    lemma_js_trim_idempotent(s);
}

/// An empty or all-whitespace input gives the empty text.
pub proof fn law_blank_input_gives_empty(s: Seq<char>, o: Options)
    requires
        all_js_whitespace(s),
    ensures
        camel_cased(s, o) == Seq::<char>::empty(),
{
    lemma_js_trim_range(s, 0, 0);
    assert(js_trim(s) =~= Seq::<char>::empty());
}

/// The result begins with the input's leading `_` and `$` (after trimming).
pub proof fn law_leading_marks_are_kept(s: Seq<char>, o: Options)
    ensures
        leading_marks(s).len() <= camel_cased(s, o).len(),
        camel_cased(s, o).take(leading_marks(s).len() as int) == leading_marks(s),
{
    let p = leading_marks(s);
    let r = camel_cased(s, o);
    assert(r.take(p.len() as int) =~= p);
}

/// Blank fragments, wherever they stand in the list, are left out of the join.
pub proof fn law_blank_fragment_is_ignored(parts: Seq<Seq<char>>, k: int, blank: Seq<char>)
    requires
        0 <= k <= parts.len(),
        js_trim(blank).len() == 0,
    ensures
        joined_fragments(parts.insert(k, blank)) == joined_fragments(parts),
    decreases parts.len() - k,
{
    let q = parts.insert(k, blank);
    if k == parts.len() {
        assert(q.drop_last() =~= parts);
    } else {
        law_blank_fragment_is_ignored(parts.drop_last(), k, blank);
        assert(q.drop_last() =~= parts.drop_last().insert(k, blank));
        assert(q.last() == parts.last());
    }
}

/// Whitespace around a fragment does not change the join.
pub proof fn law_fragment_whitespace_is_ignored(
    parts: Seq<Seq<char>>,
    k: int,
    a: Seq<char>,
    b: Seq<char>,
)
    requires
        0 <= k < parts.len(),
        all_js_whitespace(a),
        all_js_whitespace(b),
    ensures
        joined_fragments(parts.update(k, a + parts[k] + b)) == joined_fragments(parts),
    decreases parts.len() - k,
{
    let q = parts.update(k, a + parts[k] + b);
    if k == parts.len() - 1 {
        assert(q.drop_last() =~= parts.drop_last());
        lemma_js_trim_surrounded(a, parts[k], b);
    } else {
        law_fragment_whitespace_is_ignored(parts.drop_last(), k, a, b);
        assert(q.drop_last() =~= parts.drop_last().update(k, a + parts[k] + b));
        assert(parts.drop_last()[k] == parts[k]);
    }
}

/// A list of one fragment converts as the fragment alone does.
pub proof fn law_single_fragment_converts_alike(p: Seq<char>, o: Options)
    ensures
        camel_cased(joined_fragments(seq![p]), o) == camel_cased(p, o),
{
    let ps = seq![p];
    assert(ps.drop_last() =~= Seq::<Seq<char>>::empty());
    assert(ps.last() == p);
    assert(joined_fragments(ps.drop_last()) == Seq::<char>::empty());
    if js_trim(p).len() == 0 {
        assert(js_trim(p) =~= Seq::<char>::empty());
    }
    assert(joined_fragments(ps) == js_trim(p));
    lemma_js_trim_idempotent(p);
}


/// `PascalCase` changes only the first character of the word: with the other
/// switches alike, both conversions keep the same leading `_`/`$`; a
/// one-character word is uppercased instead of lowercased; a longer word goes
/// through the same final stage, from the same text but for its first
/// character, which the `PascalCase` conversion uppercases.
pub proof fn law_pascal_case_changes_only_first_character(s: Seq<char>, pascal: Options, camel: Options)
    requires
        pascal.is_pascal(),
        !camel.is_pascal(),
        pascal.keeps_uppercase_runs() == camel.keeps_uppercase_runs(),
        pascal.capitalizes_after_number() == camel.capitalizes_after_number(),
    ensures
        word_part(s).len() == 0 || (word_part(s).len() == 1 && separator_char(word_part(s)[0]))
            ==> camel_cased(s, pascal) == camel_cased(s, camel),
        word_part(s).len() == 1 && !separator_char(word_part(s)[0]) ==> camel_cased(s, pascal)
            == leading_marks(s) + unicode_uppercase(word_part(s)) && camel_cased(s, camel)
            == leading_marks(s) + unicode_lowercase(word_part(s)),
        word_part(s).len() >= 2 ==> camel_cased(s, camel) == leading_marks(s) + post_processed(
            cased_word(word_part(s), camel),
            camel,
        ) && camel_cased(s, pascal) == leading_marks(s) + post_processed(
            first_uppercased(cased_word(word_part(s), camel)),
            camel,
        ),
{
}

/// `s` with every `-` taken out.
pub open spec fn without_dashes(s: Seq<char>) -> Seq<char>
    decreases s.len(),
{
    if s.len() == 0 {
        Seq::empty()
    } else if s.last() == '-' {
        without_dashes(s.drop_last())
    } else {
        without_dashes(s.drop_last()).push(s.last())
    }
}

pub proof fn lemma_without_dashes_add(a: Seq<char>, b: Seq<char>)
    ensures
        without_dashes(a + b) == without_dashes(a) + without_dashes(b),
    decreases b.len(),
{
    if b.len() == 0 {
        assert(a + b =~= a);
    } else {
        lemma_without_dashes_add(a, b.drop_last());
        assert((a + b).drop_last() =~= a + b.drop_last());
        assert((a + b).last() == b.last());
    }
}

proof fn lemma_without_dashes_one(c: char)
    ensures
        without_dashes(seq![c]) == (if c == '-' { Seq::<char>::empty() } else { seq![c] }),
{
    assert(seq![c].drop_last() =~= Seq::<char>::empty());
    assert(seq![c].last() == c);
    assert(without_dashes(Seq::<char>::empty()) == Seq::<char>::empty());
    assert(Seq::<char>::empty().push(c) =~= seq![c]);
}

proof fn lemma_write_keeps_letters(st: BoundaryState, c: char)
    ensures
        without_dashes(boundary_write(st, c).0) == without_dashes(st.0) + without_dashes(seq![c]),
        boundary_write(st, c).0.len() > 0,
{
    lemma_without_dashes_one('-');
    if st.1 && crate::text::unicode_is_uppercase(c) {
        lemma_without_dashes_add(st.0, seq!['-', c]);
        lemma_without_dashes_add(seq!['-'], seq![c]);
        assert(seq!['-', c] =~= seq!['-'] + seq![c]);
    } else {
        lemma_without_dashes_add(st.0, seq![c]);
        assert(st.0.push(c) =~= st.0 + seq![c]);
    }
}

proof fn lemma_scan_keeps_letters(s: Seq<char>, keep_runs: bool)
    ensures
        without_dashes(boundary_scan(s, keep_runs).0) == without_dashes(s),
        boundary_scan(s, keep_runs).2 ==> boundary_scan(s, keep_runs).0.len() > 0,
    decreases s.len(),
{
    if s.len() > 0 {
        let prev = s.drop_last();
        let st = boundary_scan(prev, keep_runs);
        let c = s.last();
        lemma_scan_keeps_letters(prev, keep_runs);
        lemma_without_dashes_add(prev, seq![c]);
        assert(s =~= prev + seq![c]);
        if !(st.1 && crate::text::unicode_is_uppercase(c)) && st.2 && st.3
            && crate::text::unicode_is_lowercase(c) && (!crate::steps::third_last_is_dash(st.0)
            || keep_runs) {
            let n = st.0.len();
            let moved = st.0.take(n - 1) + seq!['-', st.0[n - 1]];
            lemma_without_dashes_add(st.0.take(n - 1), seq!['-', st.0[n - 1]]);
            lemma_without_dashes_add(seq!['-'], seq![st.0[n - 1]]);
            assert(seq!['-', st.0[n - 1]] =~= seq!['-'] + seq![st.0[n - 1]]);
            lemma_without_dashes_add(st.0.take(n - 1), seq![st.0[n - 1]]);
            assert(st.0.take(n - 1) + seq![st.0[n - 1]] =~= st.0);
            lemma_without_dashes_one('-');
            lemma_without_dashes_one(st.0[n - 1]);
            assert(without_dashes(moved) == without_dashes(st.0));
            lemma_write_keeps_letters((moved, true, false, st.2), c);
        } else {
            lemma_write_keeps_letters(st, c);
        }
    }
}

/// Marking case boundaries only adds dashes: with every `-` taken out, the
/// result is the input with every `-` taken out.
pub proof fn law_case_boundaries_only_add_dashes(s: Seq<char>, keep_runs: bool)
    ensures
        without_dashes(marked_case_boundaries(s, keep_runs)) == without_dashes(s),
{
    lemma_scan_keeps_letters(s, keep_runs);
}

} // verus!
