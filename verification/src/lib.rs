//! Conversion of dash, dot, underscore and space separated text (and of
//! `PascalCase` / `camelCase` text) to `camelCase`: `foo-bar` gives `fooBar`,
//! `XML-http` gives `xmlHttp`.

pub mod options;
pub mod text;
pub mod steps;
pub mod captures;
pub mod laws;
pub mod scan_laws;
pub mod switch_laws;
pub mod pascal_law;
pub mod purpose_laws;

pub use options::Options;
pub use captures::{RegexCapture, replace_number_boundaries, replace_separator_runs};

use vstd::prelude::*;
use crate::text::{
    unicode_lowercase, unicode_uppercase, lower, upper, chars_of, string_of, extend_chars,
    extend_str, copy_range, one_char_string,
};
use crate::steps::{
    CharClass, leading_run, js_trim, separator_char, without_leading_separators,
    marked_case_boundaries, lowered_leading_capital, case_preserved, trim_js_whitespace,
    strip_leading_separators, preserve_camel_case, lowercase_leading_capital,
    process_with_case_preservation, is_separator, lemma_leading_run,
};
use crate::captures::{find_captures, regex_captures, replaced_number_boundaries, replaced_separator_runs};

verus! {

/// A run of digits and the identifier character (or the end of the text) after it.
pub const NUMBERS_PATTERN: &'static str = "[0-9]+([\\p{Alphabetic}\\p{N}_]|$)";

/// A run of separators and the identifier character (or the end of the text) after it.
pub const SEPARATORS_PATTERN: &'static str = "[_.\\- ]+([\\p{Alphabetic}\\p{N}_]|$)";

/// The text with the digit-run boundaries rewritten (unchanged where the
/// pattern does not compile).
pub open spec fn after_number_boundaries(s: Seq<char>) -> Seq<char> {
    match regex_captures(NUMBERS_PATTERN@, s) {
        Some((cs, t)) => replaced_number_boundaries(cs, t),
        None => s,
    }
}

/// The text with its separator runs collapsed (unchanged where the pattern
/// does not compile).
pub open spec fn after_separator_runs(s: Seq<char>) -> Seq<char> {
    match regex_captures(SEPARATORS_PATTERN@, s) {
        Some((cs, t)) => replaced_separator_runs(cs, t),
        None => s,
    }
}

/// The last stage: digit-run boundaries (where they count), then separator runs.
pub open spec fn post_processed(s: Seq<char>, o: Options) -> Seq<char> {
    after_separator_runs(
        if o.capitalizes_after_number() {
            after_number_boundaries(s)
        } else {
            s
        },
    )
}

/// A word with its case boundaries marked (where it is not all lowercase) and
/// its leading separators stripped.
pub open spec fn stripped_word(work: Seq<char>, keep_runs: bool) -> Seq<char> {
    let marked = if work != unicode_lowercase(work) {
        marked_case_boundaries(work, keep_runs)
    } else {
        work
    };
    without_leading_separators(marked)
}

/// A word of two or more characters (after the leading `_`/`$`) with its case
/// boundaries marked, its leading separators stripped and its case settled,
/// before `PascalCase` and the final stage apply.
pub open spec fn cased_word(work: Seq<char>, o: Options) -> Seq<char> {
    let stripped = stripped_word(work, o.keeps_uppercase_runs());
    if o.capitalizes_after_number() {
        if o.keeps_uppercase_runs() {
            lowered_leading_capital(stripped)
        } else {
            unicode_lowercase(stripped)
        }
    } else {
        case_preserved(stripped, o.keeps_uppercase_runs())
    }
}

/// `s` with its first character uppercased.
pub open spec fn first_uppercased(s: Seq<char>) -> Seq<char> {
    if s.len() > 0 {
        unicode_uppercase(seq![s[0]]) + s.skip(1)
    } else {
        s
    }
}

/// The text that a word of two or more characters hands to the final stage:
/// its cased form, with the first character uppercased for `PascalCase`.
pub open spec fn final_stage_input(work: Seq<char>, o: Options) -> Seq<char> {
    let cased = cased_word(work, o);
    if o.is_pascal() {
        first_uppercased(cased)
    } else {
        cased
    }
}

/// What a word of two or more characters (after the leading `_`/`$`) becomes.
pub open spec fn converted_word(work: Seq<char>, o: Options) -> Seq<char> {
    post_processed(final_stage_input(work, o), o)
}

/// The leading `_` and `$` of the trimmed input, which the result keeps.
pub open spec fn leading_marks(input: Seq<char>) -> Seq<char> {
    let t = js_trim(input);
    t.take(leading_run(t, CharClass::LeadingMark) as int)
}

/// The trimmed input after its leading `_` and `$`.
pub open spec fn word_part(input: Seq<char>) -> Seq<char> {
    let t = js_trim(input);
    t.skip(leading_run(t, CharClass::LeadingMark) as int)
}

/// The `camelCase` form of `input` under the options `o`.
pub open spec fn camel_cased(input: Seq<char>, o: Options) -> Seq<char> {
    let prefix = leading_marks(input);
    let work = word_part(input);
    if work.len() == 0 {
        prefix
    } else if work.len() == 1 {
        if separator_char(work[0]) {
            prefix
        } else if o.is_pascal() {
            prefix + unicode_uppercase(work)
        } else {
            prefix + unicode_lowercase(work)
        }
    } else {
        prefix + converted_word(work, o)
    }
}

/// The fragments, each trimmed, the empty ones left out, joined by `-`.
pub open spec fn joined_fragments(parts: Seq<Seq<char>>) -> Seq<char>
    decreases parts.len(),
{
    if parts.len() == 0 {
        Seq::empty()
    } else {
        let rest = joined_fragments(parts.drop_last());
        let t = js_trim(parts.last());
        if t.len() == 0 {
            rest
        } else if rest.len() == 0 {
            t
        } else {
            rest + seq!['-'] + t
        }
    }
}

/// The views of a list of text fragments.
pub open spec fn fragments_view(parts: Seq<&str>) -> Seq<Seq<char>> {
    parts.map_values(|p: &str| p@)
}

/// Collapses separators (and numeric word boundaries) and uppercases the
/// following identifier.
fn post_process(input: &str, options: Options) -> (r: String)
    ensures
        r@ == post_processed(input@, options),
{
    let after_numbers = if options.get_capitalize_after_number() {
        match find_captures(NUMBERS_PATTERN, input) {
            Some((caps, trailing)) => replace_number_boundaries(&caps, trailing.as_str()),
            None => string_of(chars_of(input).as_slice()),
        }
    } else {
        string_of(chars_of(input).as_slice())
    };
    match find_captures(SEPARATORS_PATTERN, after_numbers.as_str()) {
        Some((caps, trailing)) => replace_separator_runs(&caps, trailing.as_str()),
        None => after_numbers,
    }
}

/// The steps for a word of two or more characters.
fn convert_word(work: Vec<char>, options: Options) -> (r: String)
    ensures
        r@ == converted_word(work@, options),
{
    let pcu = options.get_preserve_consecutive_uppercase();
    let work_string = string_of(work.as_slice());
    let lowered = lower(work_string.as_str());
    let has_upper = !(work_string == lowered);
    let marked = if has_upper {
        preserve_camel_case(work.as_slice(), pcu)
    } else {
        work
    };
    let stripped = strip_leading_separators(marked.as_slice());
    let cased = if options.get_capitalize_after_number() {
        if pcu {
            lowercase_leading_capital(stripped.as_slice())
        } else {
            chars_of(lower(string_of(stripped.as_slice()).as_str()).as_str())
        }
    } else {
        process_with_case_preservation(stripped.as_slice(), pcu)
    };
    let capitalized = if options.get_pascal_case() && cased.len() > 0 {
        let first = upper(one_char_string(cased[0]).as_str());
        let mut v = chars_of(first.as_str());
        let rest = copy_range(cased.as_slice(), 1, cased.len());
        extend_chars(&mut v, rest.as_slice());
        assert(cased@.subrange(1, cased@.len() as int) =~= cased@.skip(1));
        v
    } else {
        cased
    };
    post_process(string_of(capitalized.as_slice()).as_str(), options)
}

/// Convert `input` to `camelCase` with the default options.
pub fn camel_case(input: &str) -> (r: String)
    ensures
        r@ == camel_cased(input@, Options::defaults()),
{
    camel_case_with(input, Options::default())
}

/// Convert a list of fragments to `camelCase` (each is trimmed, empties dropped,
/// joined by `-`).
pub fn camel_case_slice(input: &[&str], options: Options) -> (r: String)
    ensures
        r@ == camel_cased(joined_fragments(fragments_view(input@)), options),
{
    let ghost parts = fragments_view(input@);
    let mut joined: Vec<char> = Vec::new();
    let mut i: usize = 0;
    while i < input.len()
        invariant
            i <= input@.len(),
            parts == fragments_view(input@),
            joined@ == joined_fragments(parts.take(i as int)),
        decreases input@.len() - i,
    {
        let t = trim_js_whitespace(chars_of(input[i]).as_slice());
        proof {
            assert(parts.take(i + 1).drop_last() =~= parts.take(i as int));
            assert(parts.take(i + 1).last() == input@[i as int]@);
        }
        if t.len() > 0 {
            if joined.len() > 0 {
                joined.push('-');
            }
            extend_chars(&mut joined, t.as_slice());
        }
        i = i + 1;
    }
    assert(parts.take(input@.len() as int) =~= parts);
    camel_case_with(string_of(joined.as_slice()).as_str(), options)
}

/// Convert `input` to `camelCase` with the given `Options`.
pub fn camel_case_with(input: &str, options: Options) -> (r: String)
    ensures
        r@ == camel_cased(input@, options),
{
    let chars = chars_of(input);
    let trimmed = trim_js_whitespace(chars.as_slice());
    let n = trimmed.len();
    if n == 0 {
        proof {
            lemma_leading_run(trimmed@, CharClass::LeadingMark, 0);
        }
        return String::new();
    }
    // Preserve leading `_` and `$`.
    let mut k: usize = 0;
    while k < n && (trimmed[k] == '_' || trimmed[k] == '$')
        invariant
            n == trimmed@.len(),
            k <= n,
            forall|j: int| 0 <= j < k ==> #[trigger] trimmed@[j] == '_' || trimmed@[j] == '$',
        decreases n - k,
    {
        k = k + 1;
    }
    proof {
        lemma_leading_run(trimmed@, CharClass::LeadingMark, k as int);
    }
    let mut out = copy_range(trimmed.as_slice(), 0, k);
    let work = copy_range(trimmed.as_slice(), k, n);
    assert(out@ =~= leading_marks(input@));
    assert(work@ =~= word_part(input@));
    if work.len() == 0 {
        return string_of(out.as_slice());
    }
    if work.len() == 1 {
        let only = work[0];
        if is_separator(only) {
            return string_of(out.as_slice());
        }
        let work_string = string_of(work.as_slice());
        let cased = if options.get_pascal_case() {
            upper(work_string.as_str())
        } else {
            lower(work_string.as_str())
        };
        extend_str(&mut out, cased.as_str());
        return string_of(out.as_slice());
    }
    let converted = convert_word(work, options);
    extend_str(&mut out, converted.as_str());
    string_of(out.as_slice())
}

} // verus!
