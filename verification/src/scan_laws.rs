//! Character-by-character properties of the case-boundary scan and of the
//! case-preserving pass, stated over the Unicode case answers.

use vstd::prelude::*;
use crate::text::{unicode_is_uppercase, unicode_is_lowercase, unicode_is_alphabetic, unicode_lowercase};
use crate::steps::{
    BoundaryState, boundary_scan, boundary_step, boundary_write, cased_lower, cased_upper,
    separator_char, ascii_digit_char, preserving_scan, lowered_leading_capital,
    marked_case_boundaries, third_last_is_dash,
};

verus! {

/// The scan over the first `i + 1` characters is one step after the scan over
/// the first `i`.
proof fn lemma_boundary_scan_step(s: Seq<char>, i: int, keep_runs: bool)
    requires
        0 <= i < s.len(),
    ensures
        boundary_scan(s.take(i + 1), keep_runs) == boundary_step(
            boundary_scan(s.take(i), keep_runs),
            s[i],
            keep_runs,
        ),
{
    assert(s.take(i + 1).drop_last() =~= s.take(i));
    assert(s.take(i + 1).last() == s[i]);
}

proof fn lemma_write_facts(st: BoundaryState, c: char)
    ensures
        boundary_write(st, c).0.len() > 0,
        boundary_write(st, c).0.last() == c,
        cased_upper(c) ==> boundary_write(st, c).2 && !boundary_write(st, c).1,
        cased_lower(c) && !unicode_is_uppercase(c) ==> boundary_write(st, c).1,
        boundary_write(st, c).3 == st.2,
{
}

proof fn lemma_step_facts(st: BoundaryState, c: char, keep_runs: bool)
    ensures
        boundary_step(st, c, keep_runs).0.len() > 0,
        boundary_step(st, c, keep_runs).0.last() == c,
        cased_upper(c) ==> boundary_step(st, c, keep_runs).2 && !boundary_step(st, c, keep_runs).1,
        cased_lower(c) && !unicode_is_uppercase(c) ==> boundary_step(st, c, keep_runs).1,
        !unicode_is_lowercase(c) ==> boundary_step(st, c, keep_runs) == boundary_write(st, c),
        !unicode_is_uppercase(c) && !cased_upper(c) ==> !boundary_step(st, c, keep_runs).2,
{
    let n = st.0.len();
    lemma_write_facts(st, c);
    lemma_write_facts((st.0.take(n - 1) + seq!['-', st.0[n - 1]], true, false, st.2), c);
}

/// A character that is neither uppercase nor lowercase is copied, with nothing
/// inserted before it.
pub proof fn law_uncased_character_is_copied(s: Seq<char>, i: int, keep_runs: bool)
    requires
        0 <= i < s.len(),
        !unicode_is_uppercase(s[i]),
        !unicode_is_lowercase(s[i]),
    ensures
        boundary_scan(s.take(i + 1), keep_runs).0 == boundary_scan(s.take(i), keep_runs).0.push(s[i]),
{
    lemma_boundary_scan_step(s, i, keep_runs);
}

/// A dash goes in before an uppercase letter that follows a lowercase letter.
pub proof fn law_dash_before_upper_after_lower(s: Seq<char>, i: int, keep_runs: bool)
    requires
        1 <= i < s.len(),
        cased_lower(s[i - 1]),
        !unicode_is_uppercase(s[i - 1]),
        unicode_is_uppercase(s[i]),
    ensures
        boundary_scan(s.take(i + 1), keep_runs).0 == boundary_scan(s.take(i), keep_runs).0 + seq!['-', s[i]],
{
    lemma_boundary_scan_step(s, i - 1, keep_runs);
    lemma_step_facts(boundary_scan(s.take(i - 1), keep_runs), s[i - 1], keep_runs);
    lemma_boundary_scan_step(s, i, keep_runs);
}

/// Where runs are kept, two uppercase letters followed by a lowercase one get a
/// dash before the second uppercase letter: the dash moves in front of it.
pub proof fn law_dash_before_last_capital_of_run(s: Seq<char>, i: int)
    requires
        2 <= i < s.len(),
        cased_upper(s[i - 2]),
        cased_upper(s[i - 1]),
        !unicode_is_lowercase(s[i - 1]),
        unicode_is_lowercase(s[i]),
        !unicode_is_uppercase(s[i]),
    ensures
        boundary_scan(s.take(i + 1), true).0 == boundary_scan(s.take(i), true).0.drop_last() + seq![
            '-',
            s[i - 1],
            s[i],
        ],
{
    let st0 = boundary_scan(s.take(i - 1), true);
    lemma_boundary_scan_step(s, i - 2, true);
    lemma_step_facts(boundary_scan(s.take(i - 2), true), s[i - 2], true);
    lemma_boundary_scan_step(s, i - 1, true);
    lemma_step_facts(st0, s[i - 1], true);
    lemma_write_facts(st0, s[i - 1]);
    let st = boundary_scan(s.take(i), true);
    lemma_boundary_scan_step(s, i, true);
    let n = st.0.len();
    assert(st.0[n - 1] == s[i - 1]);
    assert(st.0.take(n - 1) =~= st.0.drop_last());
    assert((st.0.take(n - 1) + seq!['-', s[i - 1]]).push(s[i]) =~= st.0.drop_last() + seq![
        '-',
        s[i - 1],
        s[i],
    ]);
}

/// Where two uppercase letters are followed by a lowercase one, the scan
/// reaches the lowercase letter with both uppercase flags set, the lowercase
/// flag clear, and the second uppercase letter last in the text written.
pub proof fn lemma_dash_before_last_capital(s: Seq<char>, i: int, keep_runs: bool)
    requires
        2 <= i < s.len(),
        cased_upper(s[i - 2]),
        cased_upper(s[i - 1]),
        !unicode_is_lowercase(s[i - 1]),
    ensures
        ({
            let st = boundary_scan(s.take(i), keep_runs);
            &&& st.2 && st.3 && !st.1
            &&& st.0.len() > 0 && st.0.last() == s[i - 1]
            &&& boundary_scan(s.take(i + 1), keep_runs) == boundary_step(st, s[i], keep_runs)
        }),
{
    let st0 = boundary_scan(s.take(i - 1), keep_runs);
    lemma_boundary_scan_step(s, i - 2, keep_runs);
    lemma_step_facts(boundary_scan(s.take(i - 2), keep_runs), s[i - 2], keep_runs);
    lemma_boundary_scan_step(s, i - 1, keep_runs);
    lemma_step_facts(st0, s[i - 1], keep_runs);
    lemma_write_facts(st0, s[i - 1]);
    lemma_boundary_scan_step(s, i, keep_runs);
}

/// Where the character before position `i` is not lowercase and the one
/// before that (if any) is neither uppercase nor cased as uppercase, the scan
/// reaches position `i` with the flag of an uppercase letter two back clear.
pub proof fn lemma_no_run_before(s: Seq<char>, i: int, keep_runs: bool)
    requires
        1 <= i < s.len(),
        i == 1 || (!unicode_is_uppercase(s[i - 2]) && !cased_upper(s[i - 2])),
        !unicode_is_lowercase(s[i - 1]),
    ensures
        !boundary_scan(s.take(i), keep_runs).3,
        boundary_scan(s.take(i + 1), keep_runs) == boundary_step(
            boundary_scan(s.take(i), keep_runs),
            s[i],
            keep_runs,
        ),
{
    if i == 1 {
        assert(s.take(0) =~= Seq::<char>::empty());
    } else {
        lemma_boundary_scan_step(s, i - 2, keep_runs);
        lemma_step_facts(boundary_scan(s.take(i - 2), keep_runs), s[i - 2], keep_runs);
    }
    lemma_boundary_scan_step(s, i - 1, keep_runs);
    lemma_step_facts(boundary_scan(s.take(i - 1), keep_runs), s[i - 1], keep_runs);
    lemma_write_facts(boundary_scan(s.take(i - 1), keep_runs), s[i - 1]);
    lemma_boundary_scan_step(s, i, keep_runs);
}

/// Whether a character lets a digit run reach past it in the case-preserving
/// pass: a separator, or (where runs are kept) an uppercase letter.
pub open spec fn lets_digits_through(c: char, keep_runs: bool) -> bool {
    separator_char(c) || (keep_runs && unicode_is_uppercase(c))
}

/// Whether some digit before position `i` is followed, up to `i`, only by
/// characters that let it through.
pub open spec fn digit_run_reaches(s: Seq<char>, i: int, keep_runs: bool) -> bool {
    exists|j: int|
        #![trigger s[j]]
        0 <= j < i && ascii_digit_char(s[j]) && forall|m: int|
            j < m < i ==> lets_digits_through(#[trigger] s[m], keep_runs)
}

proof fn lemma_digit_flag_has_a_digit(s: Seq<char>, i: int, keep_runs: bool)
    requires
        0 <= i <= s.len(),
    ensures
        preserving_scan(s, i as nat, keep_runs).1 ==> digit_run_reaches(s, i, keep_runs),
    decreases i,
{
    if i > 0 {
        lemma_digit_flag_has_a_digit(s, i - 1, keep_runs);
        let prev = preserving_scan(s, (i - 1) as nat, keep_runs);
        let c = s[i - 1];
        if preserving_scan(s, i as nat, keep_runs).1 {
            if ascii_digit_char(c) && !(prev.1 && unicode_is_alphabetic(c)) && !(keep_runs
                && unicode_is_uppercase(c) && (prev.2 || (i < s.len() && unicode_is_uppercase(s[i])))) {
                assert(0 <= i - 1 < i && ascii_digit_char(s[i - 1]));
            } else {
                assert(prev.1);
                let j = choose|j: int|
                    #![trigger s[j]]
                    0 <= j < i - 1 && ascii_digit_char(s[j]) && forall|m: int|
                        j < m < i - 1 ==> lets_digits_through(#[trigger] s[m], keep_runs);
                assert(lets_digits_through(c, keep_runs));
                assert forall|m: int| j < m < i implies lets_digits_through(#[trigger] s[m], keep_runs) by {
                }
                assert(0 <= j < i && ascii_digit_char(s[j]));
            }
        }
    }
}

/// In the case-preserving pass each character is either copied or replaced
/// by its lowercase form, in order.
pub proof fn law_character_kept_or_lowered(s: Seq<char>, i: int, keep_runs: bool)
    requires
        0 <= i < s.len(),
    ensures
        preserving_scan(s, (i + 1) as nat, keep_runs).0 == preserving_scan(s, i as nat, keep_runs).0.push(s[i])
            || preserving_scan(s, (i + 1) as nat, keep_runs).0 == preserving_scan(s, i as nat, keep_runs).0
            + unicode_lowercase(seq![s[i]]),
{
}

/// Digits and separators are copied by the case-preserving pass.
pub proof fn law_digits_and_separators_are_copied(s: Seq<char>, i: int, keep_runs: bool)
    requires
        0 <= i < s.len(),
        ascii_digit_char(s[i]) || separator_char(s[i]),
    ensures
        preserving_scan(s, (i + 1) as nat, keep_runs).0 == preserving_scan(s, i as nat, keep_runs).0.push(s[i]),
{
}

proof fn lemma_digit_flag_survives(s: Seq<char>, j: int, i: int, keep_runs: bool)
    requires
        0 <= j < i <= s.len(),
        ascii_digit_char(s[j]),
        !unicode_is_alphabetic(s[j]),
        !(keep_runs && unicode_is_uppercase(s[j])),
        forall|m: int| j < m < i ==> separator_char(#[trigger] s[m]) && !unicode_is_alphabetic(s[m]),
    ensures
        preserving_scan(s, i as nat, keep_runs).1,
    decreases i - j,
{
    if i > j + 1 {
        lemma_digit_flag_survives(s, j, i - 1, keep_runs);
        assert(separator_char(s[i - 1]) && !unicode_is_alphabetic(s[i - 1]));
    }
}

/// A letter right after a digit, or after a digit and a run of separators,
/// is copied as written (given that the digit and the separators are not
/// letters, and the digit does not count as an uppercase letter of a kept run).
pub proof fn law_letter_after_digits_is_copied(s: Seq<char>, j: int, i: int, keep_runs: bool)
    requires
        0 <= j < i < s.len(),
        ascii_digit_char(s[j]),
        !unicode_is_alphabetic(s[j]),
        !(keep_runs && unicode_is_uppercase(s[j])),
        forall|m: int| j < m < i ==> separator_char(#[trigger] s[m]) && !unicode_is_alphabetic(s[m]),
        unicode_is_alphabetic(s[i]),
    ensures
        preserving_scan(s, (i + 1) as nat, keep_runs).0 == preserving_scan(s, i as nat, keep_runs).0.push(s[i]),
{
    lemma_digit_flag_survives(s, j, i, keep_runs);
}

/// A character that is not a digit, not a separator and not part of a kept
/// uppercase run is lowercased, unless a digit run reaches it.
pub proof fn law_other_character_is_lowered(s: Seq<char>, i: int, keep_runs: bool)
    requires
        0 <= i < s.len(),
        !ascii_digit_char(s[i]),
        !separator_char(s[i]),
        !(keep_runs && unicode_is_uppercase(s[i])),
        !digit_run_reaches(s, i, keep_runs),
    ensures
        preserving_scan(s, (i + 1) as nat, keep_runs).0 == preserving_scan(s, i as nat, keep_runs).0
            + unicode_lowercase(seq![s[i]]),
{
    lemma_digit_flag_has_a_digit(s, i, keep_runs);
}


/// Lowering a leading capital twice is lowering it once, where the lowercase
/// form of the first character does not itself begin with an uppercase letter.
pub proof fn law_lowering_leading_capital_is_idempotent(s: Seq<char>)
    requires
        s.len() > 0 && unicode_lowercase(seq![s[0]]).len() > 0 ==> !unicode_is_uppercase(
            unicode_lowercase(seq![s[0]])[0],
        ),
    ensures
        lowered_leading_capital(lowered_leading_capital(s)) == lowered_leading_capital(s),
{
    if s.len() > 0 && unicode_is_uppercase(s[0]) && !(s.len() > 1 && unicode_is_uppercase(s[1])) {
        let low = unicode_lowercase(seq![s[0]]);
        let r = low + s.skip(1);
        if low.len() > 0 {
            assert(r[0] == low[0]);
        } else {
            assert(r =~= s.skip(1));
            if s.len() > 1 {
                assert(r[0] == s[1]);
            }
        }
    }
}


/// Whether `f` is `t` with some of its dashes taken out.
pub open spec fn drops_dashes(t: Seq<char>, f: Seq<char>) -> bool
    decreases t.len(),
{
    if t.len() == 0 {
        f.len() == 0
    } else if f.len() > 0 && f.last() == t.last() && drops_dashes(t.drop_last(), f.drop_last()) {
        true
    } else {
        t.last() == '-' && drops_dashes(t.drop_last(), f)
    }
}

/// Whether the case answers for `c` fit together: `c` is not a dash, not both
/// uppercase and lowercase, and, where lowercase, not changed by lowercasing
/// while kept by uppercasing.
pub open spec fn coherent_case(c: char) -> bool {
    &&& c != '-'
    &&& !(unicode_is_uppercase(c) && unicode_is_lowercase(c))
    &&& unicode_is_lowercase(c) ==> !cased_upper(c)
}

proof fn lemma_drops_push(t: Seq<char>, f: Seq<char>, x: char)
    requires
        drops_dashes(t, f),
    ensures
        drops_dashes(t.push(x), f.push(x)),
{
    assert(t.push(x).drop_last() =~= t);
    assert(f.push(x).drop_last() =~= f);
}

proof fn lemma_drops_dash(t: Seq<char>, f: Seq<char>)
    requires
        drops_dashes(t, f),
    ensures
        drops_dashes(t.push('-'), f),
{
    assert(t.push('-').drop_last() =~= t);
}

proof fn lemma_drops_last(t: Seq<char>, f: Seq<char>)
    requires
        drops_dashes(t, f),
        t.len() > 0,
        t.last() != '-',
    ensures
        f.len() > 0,
        f.last() == t.last(),
        drops_dashes(t.drop_last(), f.drop_last()),
{
}

proof fn lemma_moved_is_push(t: Seq<char>)
    requires
        t.len() > 0,
    ensures
        t.take(t.len() - 1) + seq!['-', t[t.len() - 1]] == t.drop_last().push('-').push(t.last()),
{
    assert(t.take(t.len() - 1) + seq!['-', t[t.len() - 1]] =~= t.drop_last().push('-').push(t.last()));
}

proof fn lemma_runs_simulation(s: Seq<char>, i: int)
    requires
        0 <= i <= s.len(),
        forall|m: int| 0 <= m < s.len() ==> coherent_case(#[trigger] s[m]),
    ensures
        ({
            let t = boundary_scan(s.take(i), true);
            let f = boundary_scan(s.take(i), false);
            &&& drops_dashes(t.0, f.0)
            &&& t.1 == f.1 && t.2 == f.2
            &&& t.3 == f.3 || !t.2
            &&& !(t.1 && t.2)
            &&& i == 0 ==> !t.2
            &&& i > 0 ==> t.0.len() > 0 && t.0.last() == s[i - 1] && f.0.len() > 0 && f.0.last()
                == s[i - 1]
        }),
    decreases i,
{
    if i == 0 {
        assert(s.take(0) =~= Seq::<char>::empty());
    } else {
        let j = i - 1;
        lemma_runs_simulation(s, j);
        lemma_boundary_scan_step(s, j, true);
        lemma_boundary_scan_step(s, j, false);
        let t = boundary_scan(s.take(j), true);
        let f = boundary_scan(s.take(j), false);
        let c = s[j];
        assert(coherent_case(c));
        let cond_t = !(t.1 && unicode_is_uppercase(c)) && t.2 && t.3 && unicode_is_lowercase(c);
        let cond_f = !(f.1 && unicode_is_uppercase(c)) && f.2 && f.3 && unicode_is_lowercase(c)
            && !third_last_is_dash(f.0);
        if cond_f {
            let nt = t.0.len();
            let nf = f.0.len();
            lemma_drops_last(t.0, f.0);
            lemma_moved_is_push(t.0);
            lemma_moved_is_push(f.0);
            lemma_drops_push(t.0.drop_last(), f.0.drop_last(), '-');
            lemma_drops_push(t.0.drop_last().push('-'), f.0.drop_last().push('-'), t.0.last());
            let mt = t.0.take(nt - 1) + seq!['-', t.0[nt - 1]];
            let mf = f.0.take(nf - 1) + seq!['-', f.0[nf - 1]];
            assert(drops_dashes(mt, mf));
            lemma_drops_push(mt, mf, c);
        } else if cond_t {
            let nt = t.0.len();
            lemma_drops_last(t.0, f.0);
            lemma_moved_is_push(t.0);
            lemma_drops_dash(t.0.drop_last(), f.0.drop_last());
            lemma_drops_push(t.0.drop_last().push('-'), f.0.drop_last(), t.0.last());
            assert(f.0.drop_last().push(f.0.last()) =~= f.0);
            let mt = t.0.take(nt - 1) + seq!['-', t.0[nt - 1]];
            assert(drops_dashes(mt, f.0));
            lemma_drops_push(mt, f.0, c);
        } else {
            if t.1 && unicode_is_uppercase(c) {
                lemma_drops_push(t.0, f.0, '-');
                lemma_drops_push(t.0.push('-'), f.0.push('-'), c);
                assert(t.0 + seq!['-', c] =~= t.0.push('-').push(c));
                assert(f.0 + seq!['-', c] =~= f.0.push('-').push(c));
            } else {
                lemma_drops_push(t.0, f.0, c);
            }
        }
    }
}

/// Without run-keeping, the case-boundary scan inserts a subset of the dashes
/// that it inserts with run-keeping: its result is the run-keeping result with
/// some dashes taken out (for a text without dashes whose case answers fit
/// together).
pub proof fn law_run_keeping_only_adds_dashes(s: Seq<char>)
    requires
        forall|m: int| 0 <= m < s.len() ==> coherent_case(#[trigger] s[m]),
    ensures
        drops_dashes(marked_case_boundaries(s, true), marked_case_boundaries(s, false)),
{
    lemma_runs_simulation(s, s.len() as int);
    assert(s.take(s.len() as int) =~= s);
}


/// Whether `x` holds no digit `0` to `9`.
pub open spec fn digit_free(x: Seq<char>) -> bool {
    forall|k: int| 0 <= k < x.len() ==> !ascii_digit_char(#[trigger] x[k])
}

proof fn lemma_write_digit_free(st: BoundaryState, c: char)
    requires
        digit_free(st.0),
        !ascii_digit_char(c),
    ensures
        digit_free(boundary_write(st, c).0),
{
    let w = boundary_write(st, c).0;
    assert forall|k: int| 0 <= k < w.len() implies !ascii_digit_char(#[trigger] w[k]) by {
        if k < st.0.len() {
            if st.1 && unicode_is_uppercase(c) {
                assert(w[k] == (st.0 + seq!['-', c])[k]);
            }
        }
    }
}

/// The case-boundary scan of a text without digits has no digits.
pub proof fn lemma_scan_digit_free(s: Seq<char>, keep_runs: bool)
    requires
        digit_free(s),
    ensures
        digit_free(boundary_scan(s, keep_runs).0),
        s.len() > 0 ==> boundary_scan(s, keep_runs).0.len() > 0,
        !boundary_scan(s, keep_runs).2 || s.len() > 0,
    decreases s.len(),
{
    if s.len() > 0 {
        let p = s.drop_last();
        assert forall|k: int| 0 <= k < p.len() implies !ascii_digit_char(#[trigger] p[k]) by {
            assert(p[k] == s[k]);
        }
        lemma_scan_digit_free(p, keep_runs);
        let st = boundary_scan(p, keep_runs);
        let c = s.last();
        assert(!ascii_digit_char(s[s.len() - 1]));
        lemma_step_facts(st, c, keep_runs);
        lemma_write_digit_free(st, c);
        if !(st.1 && unicode_is_uppercase(c)) && st.2 && st.3 && unicode_is_lowercase(c) && (
        !third_last_is_dash(st.0) || keep_runs) {
            let n = st.0.len();
            let moved = st.0.take(n - 1) + seq!['-', st.0[n - 1]];
            assert forall|k: int| 0 <= k < moved.len() implies !ascii_digit_char(#[trigger] moved[k]) by {
                if k < n - 1 {
                    assert(moved[k] == st.0[k]);
                } else if k == n {
                    assert(moved[k] == st.0[n - 1]);
                }
            }
            lemma_write_digit_free((moved, true, false, st.2), c);
        }
    }
}

/// Each character copied if it is a separator and lowercased otherwise.
pub open spec fn lowered_per_char(x: Seq<char>) -> Seq<char>
    decreases x.len(),
{
    if x.len() == 0 {
        Seq::empty()
    } else {
        lowered_per_char(x.drop_last()) + if separator_char(x.last()) {
            seq![x.last()]
        } else {
            unicode_lowercase(seq![x.last()])
        }
    }
}

/// On a text without digits and without run-keeping, the case-preserving pass
/// copies separators and lowercases every other character.
pub proof fn lemma_preserving_without_digits(x: Seq<char>, n: int)
    requires
        0 <= n <= x.len(),
        digit_free(x),
    ensures
        preserving_scan(x, n as nat, false) == (lowered_per_char(x.take(n)), false, false),
    decreases n,
{
    if n == 0 {
        assert(x.take(0) =~= Seq::<char>::empty());
    } else {
        lemma_preserving_without_digits(x, n - 1);
        assert(x.take(n).drop_last() =~= x.take(n - 1));
        assert(x.take(n).last() == x[n - 1]);
        assert(!ascii_digit_char(x[n - 1]));
        if separator_char(x[n - 1]) {
            assert(lowered_per_char(x.take(n - 1)).push(x[n - 1]) =~= lowered_per_char(x.take(n - 1))
                + seq![x[n - 1]]);
        }
    }
}

/// Without uppercase letters, keeping uppercase runs does not change the
/// case-preserving pass.
pub proof fn lemma_preserving_without_uppercase(x: Seq<char>, n: int)
    requires
        0 <= n <= x.len(),
        forall|k: int| 0 <= k < x.len() ==> !unicode_is_uppercase(#[trigger] x[k]),
    ensures
        preserving_scan(x, n as nat, true) == preserving_scan(x, n as nat, false),
    decreases n,
{
    if n > 0 {
        lemma_preserving_without_uppercase(x, n - 1);
        assert(!unicode_is_uppercase(x[n - 1]));
    }
}

} // verus!
