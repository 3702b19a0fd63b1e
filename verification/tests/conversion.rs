use camelcase::captures::RegexCapture;
use camelcase::steps::{
    is_ascii_digit, is_js_whitespace, is_separator,
    lowercase_leading_capital, preserve_camel_case, process_with_case_preservation,
    strip_leading_separators, trim_js_whitespace,
};
use camelcase::{
    camel_case, camel_case_slice, camel_case_with, replace_number_boundaries,
    replace_separator_runs, Options,
};

fn chars(s: &str) -> Vec<char> {
    s.chars().collect()
}

fn text(v: &[char]) -> String {
    v.iter().collect()
}

fn capture(before: &str, head: &str, group: &str, tail: &str) -> RegexCapture {
    RegexCapture {
        before: before.to_string(),
        head: head.to_string(),
        group: group.to_string(),
        tail: tail.to_string(),
    }
}

#[test]
fn surrounding_whitespace_is_ignored() {
    assert_eq!(camel_case("\u{00A0}\tfoo-bar\u{3000} "), "fooBar");
    assert_eq!(camel_case("  Foo_Bar\n"), camel_case("Foo_Bar"));
    assert_eq!(camel_case("\u{FEFF}x\u{2003}"), "x");
}

#[test]
fn blank_input_gives_empty() {
    assert_eq!(camel_case("   \t\u{2028}"), "");
    assert_eq!(camel_case_with(" ", Options::new().pascal_case(true)), "");
}

#[test]
fn leading_marks_are_kept() {
    assert_eq!(camel_case("$_foo-bar"), "$_fooBar");
    assert_eq!(camel_case("__"), "__");
    assert_eq!(camel_case("_-"), "_");
    assert_eq!(camel_case_with("_foo-bar", Options::new().pascal_case(true)), "_FooBar");
}

#[test]
fn single_character_words() {
    assert_eq!(camel_case("-"), "");
    assert_eq!(camel_case_with("b", Options::new().pascal_case(true)), "B");
    assert_eq!(camel_case("$B"), "$b");
}

#[test]
fn separator_runs_collapse() {
    assert_eq!(camel_case("foo--bar..baz"), "fooBarBaz");
    assert_eq!(camel_case("foo bar_"), "fooBar");
    assert_eq!(camel_case("foo-Bar"), "fooBar");
}

#[test]
fn digit_run_boundaries() {
    assert_eq!(camel_case("a1-b"), "a1B");
    assert_eq!(camel_case("12-ab"), "12Ab");
    assert_eq!(camel_case("foo1_bar"), "foo1Bar");
    assert_eq!(camel_case("v2"), "v2");
}

#[test]
fn non_ascii_letters() {
    assert_eq!(camel_case("Stra\u{00DF}e-gr\u{00FC}n"), "stra\u{00DF}eGr\u{00FC}n");
}

#[test]
fn slice_blank_fragments_are_ignored() {
    let o = Options::default();
    assert_eq!(camel_case_slice(&["foo", " ", "bar"], o), camel_case_slice(&["foo", "bar"], o));
    assert_eq!(camel_case_slice(&["", "\t"], o), "");
    assert_eq!(camel_case_slice(&[" foo\t", "bar"], o), camel_case_slice(&["foo", "bar"], o));
    assert_eq!(camel_case_slice(&[" Foo-Bar "], o), camel_case(" Foo-Bar "));
    assert_eq!(camel_case_slice(&[" a", "b "], Options::new().pascal_case(true)), "AB");
}

#[test]
fn options_builders() {
    assert_eq!(Options::new(), Options::default());
    let o = Options::new().pascal_case(true).preserve_consecutive_uppercase(true);
    assert_ne!(o, Options::new());
    assert_eq!(o.capitalize_after_number(false).pascal_case(false), Options::new()
        .preserve_consecutive_uppercase(true).capitalize_after_number(false));
}

#[test]
fn replace_number_boundaries_uppercases_the_group() {
    let caps = vec![capture("foo", "123", "b", "")];
    assert_eq!(replace_number_boundaries(&caps, "ar"), "foo123Bar");
}

#[test]
fn replace_number_boundaries_keeps_match_before_separator() {
    let caps = vec![capture("a", "1", "2", "")];
    assert_eq!(replace_number_boundaries(&caps, "-x"), "a12-x");
    let empty_group = vec![capture("x", "9", "", "")];
    assert_eq!(replace_number_boundaries(&empty_group, ""), "x9");
}

#[test]
fn replace_separator_runs_uppercases_the_group() {
    let caps = vec![capture("foo", "-", "b", ""), capture("ar", "__", "", "")];
    assert_eq!(replace_separator_runs(&caps, ""), "fooBar");
    assert_eq!(replace_separator_runs(&vec![], "plain"), "plain");
}

#[test]
fn case_boundaries_are_marked() {
    assert_eq!(text(&preserve_camel_case(&chars("fooBar"), false)), "foo-Bar");
    assert_eq!(text(&preserve_camel_case(&chars("XMLHttp"), false)), "XML-Http");
    assert_eq!(text(&preserve_camel_case(&chars("ABc"), false)), "ABc");
    assert_eq!(text(&preserve_camel_case(&chars("ABc"), true)), "A-Bc");
}

#[test]
fn leading_separators_are_stripped() {
    assert_eq!(text(&strip_leading_separators(&chars("-_. a-b"))), "a-b");
    assert_eq!(text(&strip_leading_separators(&chars("--"))), "");
}

#[test]
fn leading_capital_is_lowered() {
    assert_eq!(text(&lowercase_leading_capital(&chars("Foo"))), "foo");
    assert_eq!(text(&lowercase_leading_capital(&chars("FOo"))), "FOo");
    assert_eq!(text(&lowercase_leading_capital(&chars(""))), "");
}

#[test]
fn case_is_preserved_after_digits() {
    assert_eq!(text(&process_with_case_preservation(&chars("b2B_Reg"), false)), "b2B_reg");
    assert_eq!(text(&process_with_case_preservation(&chars("fooBAR"), true)), "fooBAR");
}

#[test]
fn js_whitespace_is_trimmed() {
    assert_eq!(text(&trim_js_whitespace(&chars("\u{000B} a b \u{205F}"))), "a b");
    assert_eq!(text(&trim_js_whitespace(&chars("\u{0085}a"))), "\u{0085}a");
}

#[test]
fn character_classes() {
    assert!(is_separator('.') && is_separator(' ') && !is_separator('$'));
    assert!(is_js_whitespace('\u{2005}') && is_js_whitespace('\u{FEFF}') && !is_js_whitespace('\u{0085}'));
    assert!(is_ascii_digit('7') && !is_ascii_digit('\u{0663}'));
}

#[test]
fn uncased_characters_get_no_dash() {
    assert_eq!(text(&preserve_camel_case(&chars("a-1B"), false)), "a-1B");
    assert_eq!(text(&preserve_camel_case(&chars("aB"), true)), "a-B");
}

#[test]
fn letters_after_digit_runs_are_copied() {
    assert_eq!(text(&process_with_case_preservation(&chars("b2-_X"), false)), "b2-_X");
    assert_eq!(text(&process_with_case_preservation(&chars("aB"), false)), "ab");
    assert_eq!(text(&process_with_case_preservation(&chars("1aB"), false)), "1ab");
}

#[test]
fn pascal_case_changes_only_the_first_character() {
    let pascal = Options::new().pascal_case(true);
    assert_eq!(camel_case_with("\u{00E9}-x", pascal), "\u{00C9}X");
    assert_eq!(camel_case("\u{00E9}-x"), "\u{00E9}X");
    assert_eq!(camel_case_with("$q", pascal), "$Q");
}

#[test]
fn lowering_the_leading_capital_twice_is_lowering_it_once() {
    for s in ["Foo", "FOo", "F", "", "a", "\u{0130}x"] {
        let once = lowercase_leading_capital(&chars(s));
        assert_eq!(lowercase_leading_capital(&once), once);
    }
}

#[test]
fn run_keeping_only_adds_dashes() {
    assert_eq!(text(&preserve_camel_case(&chars("aBCd"), true)), "a-B-Cd");
    assert_eq!(text(&preserve_camel_case(&chars("aBCd"), false)), "a-BCd");
    assert_eq!(text(&preserve_camel_case(&chars("ABCd"), false)), "AB-Cd");
    assert_eq!(text(&preserve_camel_case(&chars("ABCd"), true)), "AB-Cd");
}

#[test]
fn switches_without_their_characters_change_nothing() {
    let keep = Options::new().preserve_consecutive_uppercase(true);
    assert_eq!(camel_case_with("foo-bar_baz", keep), camel_case("foo-bar_baz"));
    let no_digits = Options::new().capitalize_after_number(false);
    assert_eq!(camel_case_with("foo-bar.Baz", no_digits), camel_case("foo-bar.Baz"));
    assert_eq!(camel_case_with("XML-http", no_digits), camel_case("XML-http"));
}

#[test]
fn pascal_case_uppercases_the_first_character_of_the_result() {
    let pascal = Options::new().pascal_case(true);
    for s in ["foo-bar", "_foo_bar", "background-color", "XML-http", "p2p network"] {
        let camel = camel_case(s);
        let marks = camel.chars().take_while(|c| *c == '_' || *c == '$').count();
        let mut rest = camel[marks..].chars();
        let first: String = rest.next().map(|c| c.to_uppercase().collect()).unwrap_or_default();
        let expected = format!("{}{}{}", &camel[..marks], first, rest.as_str());
        assert_eq!(camel_case_with(s, pascal), expected);
    }
}
