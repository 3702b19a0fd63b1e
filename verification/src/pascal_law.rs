//! `PascalCase` against `camelCase`: where the first character of the text
//! that reaches the final stage takes part in no match, the two results differ
//! only in that character.

use vstd::prelude::*;
use crate::options::Options;
use crate::text::unicode_uppercase;
use crate::captures::{
    CaptureView, capture_text, captures_text, lemma_captures_text_take, regex_captures,
    separator_runs_upto, replaced_separator_runs, number_boundary_replacement,
    number_boundaries_upto, replaced_number_boundaries,
};
use crate::{
    camel_cased, leading_marks, word_part, first_uppercased, final_stage_input, post_processed,
    after_number_boundaries, after_separator_runs, NUMBERS_PATTERN, SEPARATORS_PATTERN,
};

verus! {

proof fn lemma_first_uppercased_add(a: Seq<char>, b: Seq<char>)
    requires
        a.len() > 0,
    ensures
        first_uppercased(a + b) == first_uppercased(a) + b,
{
    assert((a + b)[0] == a[0]);
    assert((a + b).skip(1) =~= a.skip(1) + b);
    assert(unicode_uppercase(seq![a[0]]) + (a.skip(1) + b) =~= unicode_uppercase(seq![a[0]])
        + a.skip(1) + b);
}

proof fn lemma_first_uppercased_index(a: Seq<char>, k: int)
    requires
        1 <= k < a.len(),
    ensures
        first_uppercased(a).len() == a.len() + unicode_uppercase(seq![a[0]]).len() - 1,
        first_uppercased(a)[k + unicode_uppercase(seq![a[0]]).len() - 1] == a[k],
{
}

/// `cs2` is `cs` with the first character of the text before its first match
/// uppercased, and that text is not empty.
pub open spec fn first_piece_uppercased(cs: Seq<CaptureView>, cs2: Seq<CaptureView>) -> bool {
    &&& cs.len() > 0
    &&& cs[0].0.len() > 0
    &&& cs2.len() == cs.len()
    &&& cs2[0] == (first_uppercased(cs[0].0), cs[0].1, cs[0].2, cs[0].3)
    &&& forall|k: int| 1 <= k < cs.len() ==> #[trigger] cs2[k] == cs[k]
}

proof fn lemma_pieces_take(cs: Seq<CaptureView>, cs2: Seq<CaptureView>, n: int)
    requires
        first_piece_uppercased(cs, cs2),
        1 <= n <= cs.len(),
    ensures
        first_piece_uppercased(cs.take(n), cs2.take(n)),
{
    assert forall|k: int| 1 <= k < n implies #[trigger] cs2.take(n)[k] == cs.take(n)[k] by {
        assert(cs2[k] == cs[k]);
    }
}

proof fn lemma_pieces_text(cs: Seq<CaptureView>, cs2: Seq<CaptureView>)
    requires
        first_piece_uppercased(cs, cs2),
    ensures
        captures_text(cs2) == first_uppercased(captures_text(cs)),
        captures_text(cs).len() >= cs[0].0.len(),
        captures_text(cs)[0] == cs[0].0[0],
{
    lemma_captures_text_take(cs, 1);
    lemma_captures_text_take(cs2, 1);
    assert(cs.take(1).drop_last() =~= Seq::<CaptureView>::empty());
    assert(cs2.take(1).drop_last() =~= Seq::<CaptureView>::empty());
    assert(cs.take(1).last() == cs[0]);
    assert(cs2.take(1).last() == cs2[0]);
    assert(captures_text(cs.take(1).drop_last()) == Seq::<char>::empty());
    assert(captures_text(cs2.take(1).drop_last()) == Seq::<char>::empty());
    assert(captures_text(cs.take(1)) =~= capture_text(cs[0]));
    assert(captures_text(cs2.take(1)) =~= capture_text(cs2[0]));
    assert forall|k: int| 0 <= k < cs.skip(1).len() implies #[trigger] cs2.skip(1)[k] == cs.skip(1)[k] by {
        assert(cs2[k + 1] == cs[k + 1]);
    }
    assert(cs2.skip(1) =~= cs.skip(1));
    let c = cs[0];
    let rest = c.1 + c.2 + c.3;
    assert(capture_text(c) =~= c.0 + rest);
    assert(capture_text(cs2[0]) =~= first_uppercased(c.0) + rest);
    lemma_first_uppercased_add(c.0, rest);
    lemma_first_uppercased_add(capture_text(c), captures_text(cs.skip(1)));
    assert(capture_text(c)[0] == c.0[0]);
}

proof fn lemma_separator_runs_upto(cs: Seq<CaptureView>, cs2: Seq<CaptureView>, n: int)
    requires
        first_piece_uppercased(cs, cs2),
        1 <= n <= cs.len(),
    ensures
        separator_runs_upto(cs2, n as nat) == first_uppercased(separator_runs_upto(cs, n as nat)),
        separator_runs_upto(cs, n as nat).len() > 0,
    decreases n,
{
    if n == 1 {
        assert(separator_runs_upto(cs, 0) == Seq::<char>::empty());
        assert(separator_runs_upto(cs2, 0) == Seq::<char>::empty());
        let g = unicode_uppercase(cs[0].2);
        assert(separator_runs_upto(cs, 1) =~= cs[0].0 + g);
        assert(separator_runs_upto(cs2, 1) =~= first_uppercased(cs[0].0) + g);
        lemma_first_uppercased_add(cs[0].0, g);
    } else {
        lemma_separator_runs_upto(cs, cs2, n - 1);
        let a = separator_runs_upto(cs, (n - 1) as nat);
        let b = cs[n - 1].0 + unicode_uppercase(cs[n - 1].2);
        assert(cs2[n - 1] == cs[n - 1]);
        assert(separator_runs_upto(cs, n as nat) =~= a + b);
        assert(separator_runs_upto(cs2, n as nat) =~= first_uppercased(a) + b);
        lemma_first_uppercased_add(a, b);
    }
}

proof fn lemma_number_replacement(cs: Seq<CaptureView>, cs2: Seq<CaptureView>, t: Seq<char>, i: int)
    requires
        first_piece_uppercased(cs, cs2),
        0 <= i < cs.len(),
    ensures
        number_boundary_replacement(cs2, t, i) == number_boundary_replacement(cs, t, i),
{
    lemma_pieces_text(cs, cs2);
    lemma_pieces_take(cs, cs2, i + 1);
    lemma_pieces_text(cs.take(i + 1), cs2.take(i + 1));
    let a = captures_text(cs);
    let text = a + t;
    let text2 = captures_text(cs2) + t;
    lemma_first_uppercased_add(a, t);
    let end = captures_text(cs.take(i + 1)).len();
    let p = captures_text(cs.take(i + 1));
    assert(p[0] == a[0]);
    let d = unicode_uppercase(seq![a[0]]).len() - 1;
    assert(end >= 1);
    if end < text.len() {
        lemma_first_uppercased_index(text, end as int);
        assert(text[0] == a[0]);
    }
    if end > 1 {
        lemma_first_uppercased_index(p, 1);
    } else {
        assert(first_uppercased(p).len() == unicode_uppercase(seq![p[0]]).len() + p.skip(1).len());
    }
    assert(captures_text(cs2.take(i + 1)).len() == end + d);
    assert(text2.len() == text.len() + d) by {
        if text.len() > 1 {
            lemma_first_uppercased_index(text, 1);
        }
        assert(text[0] == a[0]);
    }
    if i > 0 {
        assert(cs2[i] == cs[i]);
    }
}

proof fn lemma_number_boundaries_upto(cs: Seq<CaptureView>, cs2: Seq<CaptureView>, t: Seq<char>, n: int)
    requires
        first_piece_uppercased(cs, cs2),
        1 <= n <= cs.len(),
    ensures
        number_boundaries_upto(cs2, t, n as nat) == first_uppercased(number_boundaries_upto(cs, t, n as nat)),
        number_boundaries_upto(cs, t, n as nat).len() > 0,
    decreases n,
{
    lemma_number_replacement(cs, cs2, t, n - 1);
    let r = number_boundary_replacement(cs, t, n - 1);
    if n == 1 {
        assert(number_boundaries_upto(cs, t, 0) == Seq::<char>::empty());
        assert(number_boundaries_upto(cs2, t, 0) == Seq::<char>::empty());
        assert(number_boundaries_upto(cs, t, 1) =~= cs[0].0 + r);
        assert(number_boundaries_upto(cs2, t, 1) =~= first_uppercased(cs[0].0) + r);
        lemma_first_uppercased_add(cs[0].0, r);
    } else {
        lemma_number_boundaries_upto(cs, cs2, t, n - 1);
        let a = number_boundaries_upto(cs, t, (n - 1) as nat);
        let b = cs[n - 1].0 + r;
        assert(cs2[n - 1] == cs[n - 1]);
        assert(number_boundaries_upto(cs, t, n as nat) =~= a + b);
        assert(number_boundaries_upto(cs2, t, n as nat) =~= first_uppercased(a) + b);
        lemma_first_uppercased_add(a, b);
    }
}

/// Whether the first character of `y` takes part in no match of `pattern`,
/// both in `y` and in `y` with that character uppercased, and the matches are
/// otherwise the same.
pub open spec fn first_char_outside_matches(pattern: Seq<char>, y: Seq<char>) -> bool {
    match (regex_captures(pattern, y), regex_captures(pattern, first_uppercased(y))) {
        (None, None) => true,
        (Some((cs, t)), Some((cs2, t2))) => if cs.len() == 0 {
            cs2.len() == 0 && t2 == first_uppercased(t)
        } else {
            first_piece_uppercased(cs, cs2) && t2 == t
        },
        _ => false,
    }
}

proof fn lemma_separator_stage(y: Seq<char>)
    requires
        first_char_outside_matches(SEPARATORS_PATTERN@, y),
    ensures
        after_separator_runs(first_uppercased(y)) == first_uppercased(after_separator_runs(y)),
{
    if let Some((cs, t)) = regex_captures(SEPARATORS_PATTERN@, y) {
        let (cs2, t2) = regex_captures(SEPARATORS_PATTERN@, first_uppercased(y))->0;
        if cs.len() == 0 {
            assert(separator_runs_upto(cs, 0) == Seq::<char>::empty());
            assert(separator_runs_upto(cs2, 0) == Seq::<char>::empty());
            assert(replaced_separator_runs(cs, t) =~= t);
            assert(replaced_separator_runs(cs2, t2) =~= t2);
        } else {
            lemma_separator_runs_upto(cs, cs2, cs.len() as int);
            lemma_first_uppercased_add(separator_runs_upto(cs, cs.len()), t);
        }
    }
}

proof fn lemma_number_stage(y: Seq<char>)
    requires
        first_char_outside_matches(NUMBERS_PATTERN@, y),
    ensures
        after_number_boundaries(first_uppercased(y)) == first_uppercased(after_number_boundaries(y)),
{
    if let Some((cs, t)) = regex_captures(NUMBERS_PATTERN@, y) {
        let (cs2, t2) = regex_captures(NUMBERS_PATTERN@, first_uppercased(y))->0;
        if cs.len() == 0 {
            assert(number_boundaries_upto(cs, t, 0) == Seq::<char>::empty());
            assert(number_boundaries_upto(cs2, t2, 0) == Seq::<char>::empty());
            assert(replaced_number_boundaries(cs, t) =~= t);
            assert(replaced_number_boundaries(cs2, t2) =~= t2);
        } else {
            lemma_number_boundaries_upto(cs, cs2, t, cs.len() as int);
            lemma_first_uppercased_add(number_boundaries_upto(cs, t, cs.len()), t);
        }
    }
}

/// With the other switches alike, the `PascalCase` result is the `camelCase`
/// result with its first character after the leading `_`/`$` uppercased,
/// where the first character of the text that reaches the final stage takes
/// part in no match of the patterns that stage uses.
pub proof fn law_pascal_case_uppercases_first_character(s: Seq<char>, pascal: Options, camel: Options)
    requires
        pascal.is_pascal(),
        !camel.is_pascal(),
        pascal.keeps_uppercase_runs() == camel.keeps_uppercase_runs(),
        pascal.capitalizes_after_number() == camel.capitalizes_after_number(),
        word_part(s).len() >= 2,
        camel.capitalizes_after_number() ==> first_char_outside_matches(
            NUMBERS_PATTERN@,
            final_stage_input(word_part(s), camel),
        ),
        first_char_outside_matches(
            SEPARATORS_PATTERN@,
            if camel.capitalizes_after_number() {
                after_number_boundaries(final_stage_input(word_part(s), camel))
            } else {
                final_stage_input(word_part(s), camel)
            },
        ),
    ensures
        camel_cased(s, camel) == leading_marks(s) + post_processed(final_stage_input(word_part(s), camel), camel),
        camel_cased(s, pascal) == leading_marks(s) + first_uppercased(
            post_processed(final_stage_input(word_part(s), camel), camel),
        ),
{
    let x = final_stage_input(word_part(s), camel);
    assert(final_stage_input(word_part(s), pascal) == first_uppercased(x));
    if camel.capitalizes_after_number() {
        lemma_number_stage(x);
        lemma_separator_stage(after_number_boundaries(x));
    } else {
        lemma_separator_stage(x);
    }
}

} // verus!
