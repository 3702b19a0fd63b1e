use camelcase::{camel_case, camel_case_slice, camel_case_with, Options};

#[test]
fn basic() {
    assert_eq!(camel_case("foo-bar"), "fooBar");
    assert_eq!(camel_case("foo_bar"), "fooBar");
    assert_eq!(camel_case("Foo-Bar"), "fooBar");
    assert_eq!(camel_case("foo bar baz"), "fooBarBaz");
    assert_eq!(camel_case("--foo.bar"), "fooBar");
    assert_eq!(camel_case("fooBar"), "fooBar");
}

#[test]
fn acronyms_and_numbers() {
    assert_eq!(camel_case("XML-http"), "xmlHttp");
    assert_eq!(camel_case("FOO-BAR"), "fooBar");
    assert_eq!(camel_case("p2p network"), "p2pNetwork");
    assert_eq!(camel_case("foo123bar"), "foo123Bar");
    assert_eq!(camel_case("fooBar123"), "fooBar123");
    assert_eq!(camel_case("ABc"), "abc");
    assert_eq!(camel_case("aBc"), "aBc");
}

#[test]
fn leading_and_empty() {
    assert_eq!(camel_case("_foo"), "_foo");
    assert_eq!(camel_case("$foo_bar"), "$fooBar");
    assert_eq!(camel_case("__foo__bar__"), "__fooBar");
    assert_eq!(camel_case(""), "");
    assert_eq!(camel_case("_"), "_");
    assert_eq!(camel_case("a"), "a");
    assert_eq!(camel_case("A"), "a");
}

#[test]
fn pascal_and_preserve() {
    let p = Options::new().pascal_case(true);
    assert_eq!(camel_case_with("foo-bar", p), "FooBar");
    assert_eq!(camel_case_with("p2p network", p), "P2pNetwork");

    let pres = Options::new().preserve_consecutive_uppercase(true);
    assert_eq!(camel_case_with("XML-http", pres), "XMLHttp");
    assert_eq!(camel_case_with("FOO-BAR", pres), "FOOBAR");
    assert_eq!(camel_case_with("fooBAR", pres), "fooBAR");
}

#[test]
fn capitalize_after_number_false() {
    let opt = Options::new().capitalize_after_number(false);
    assert_eq!(camel_case_with("123test", opt), "123test");
    assert_eq!(camel_case_with("foo123bar", opt), "foo123bar");
    assert_eq!(camel_case_with("b2b_registration", opt), "b2bRegistration");
}

#[test]
fn slice_input() {
    assert_eq!(
        camel_case_slice(&["foo", "bar"], Options::default()),
        "fooBar"
    );
    assert_eq!(
        camel_case_slice(&["  ", "foo", "", "bar"], Options::default()),
        "fooBar"
    );
}
