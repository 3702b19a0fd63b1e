//! What the `Options` switches leave unchanged, stated over the Unicode case
//! answers and the digit-run pattern's matches.

use vstd::prelude::*;
use crate::options::Options;
use crate::text::{unicode_is_uppercase, unicode_lowercase};
use crate::steps::{
    CharClass, leading_run, lemma_leading_run_facts, without_leading_separators,
    marked_case_boundaries,
};
use crate::captures::regex_captures;
use crate::scan_laws::{
    digit_free, lowered_per_char, lemma_scan_digit_free, lemma_preserving_without_digits,
    lemma_preserving_without_uppercase,
};
use crate::{camel_cased, word_part, stripped_word, final_stage_input, NUMBERS_PATTERN};

verus! {

/// Whether the digit-run pattern finds no match in `x` (or does not compile).
pub open spec fn no_digit_run_match(x: Seq<char>) -> bool {
    regex_captures(NUMBERS_PATTERN@, x) is None || regex_captures(NUMBERS_PATTERN@, x) == Some(
        (Seq::<crate::captures::CaptureView>::empty(), x),
    )
}

/// Keeping uppercase runs changes nothing on a word without uppercase letters,
/// given that lowercasing leaves the word (and the word after its leading
/// separators) as it is.
pub proof fn law_run_keeping_needs_uppercase(s: Seq<char>, keep: Options, plain: Options)
    requires
        keep.keeps_uppercase_runs(),
        !plain.keeps_uppercase_runs(),
        keep.is_pascal() == plain.is_pascal(),
        keep.capitalizes_after_number() == plain.capitalizes_after_number(),
        forall|k: int| 0 <= k < word_part(s).len() ==> !unicode_is_uppercase(#[trigger] word_part(s)[k]),
        word_part(s).len() >= 2 ==> unicode_lowercase(word_part(s)) == word_part(s),
        word_part(s).len() >= 2 && keep.capitalizes_after_number() ==> unicode_lowercase(
            without_leading_separators(word_part(s)),
        ) == without_leading_separators(word_part(s)),
    ensures
        camel_cased(s, keep) == camel_cased(s, plain),
{
    let work = word_part(s);
    if work.len() >= 2 {
        let stripped = without_leading_separators(work);
        assert(stripped_word(work, true) == stripped);
        assert(stripped_word(work, false) == stripped);
        lemma_leading_run_facts(work, CharClass::Separator);
        let lr = leading_run(work, CharClass::Separator) as int;
        assert forall|k: int| 0 <= k < stripped.len() implies !unicode_is_uppercase(#[trigger] stripped[k]) by {
            assert(stripped[k] == work[k + lr]);
        }
        lemma_preserving_without_uppercase(stripped, stripped.len() as int);
        assert(final_stage_input(work, keep) == final_stage_input(work, plain));
    }
}

/// The digit switch changes nothing on a word without digits, without
/// run-keeping, given that lowercasing the stripped word lowercases it
/// character by character (separators kept) and that the digit-run pattern
/// finds no match in the text that reaches the final stage.
pub proof fn law_digit_switch_needs_digits(s: Seq<char>, on: Options, off: Options)
    requires
        on.capitalizes_after_number(),
        !off.capitalizes_after_number(),
        !on.keeps_uppercase_runs(),
        !off.keeps_uppercase_runs(),
        on.is_pascal() == off.is_pascal(),
        digit_free(word_part(s)),
        word_part(s).len() >= 2 ==> unicode_lowercase(stripped_word(word_part(s), false))
            == lowered_per_char(stripped_word(word_part(s), false)),
        word_part(s).len() >= 2 ==> no_digit_run_match(final_stage_input(word_part(s), on)),
    ensures
        camel_cased(s, on) == camel_cased(s, off),
{
    let work = word_part(s);
    if work.len() >= 2 {
        let marked = if work != unicode_lowercase(work) {
            marked_case_boundaries(work, false)
        } else {
            work
        };
        lemma_scan_digit_free(work, false);
        assert(digit_free(marked));
        let stripped = without_leading_separators(marked);
        assert(stripped == stripped_word(work, false));
        lemma_leading_run_facts(marked, CharClass::Separator);
        let lr = leading_run(marked, CharClass::Separator) as int;
        assert forall|k: int| 0 <= k < stripped.len() implies !crate::steps::ascii_digit_char(
            #[trigger] stripped[k],
        ) by {
            assert(stripped[k] == marked[k + lr]);
        }
        lemma_preserving_without_digits(stripped, stripped.len() as int);
        assert(stripped.take(stripped.len() as int) =~= stripped);
        let x = final_stage_input(work, on);
        assert(x == final_stage_input(work, off));
        if regex_captures(NUMBERS_PATTERN@, x) is Some {
            assert(crate::captures::number_boundaries_upto(Seq::<crate::captures::CaptureView>::empty(), x, 0) == Seq::<char>::empty());
            assert(Seq::<char>::empty() + x =~= x);
        }
    }
}

} // verus!
