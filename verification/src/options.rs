//! The switches of a conversion.

use vstd::prelude::*;

verus! {

/// Options for `camel_case_with`.
#[derive(Debug, Clone, Copy, PartialEq, Eq, Structural)]
pub struct Options {
    pascal_case: bool,
    preserve_consecutive_uppercase: bool,
    capitalize_after_number: bool,
}

impl Options {
    /// Whether the first character of the result is uppercased (`PascalCase`).
    pub closed spec fn is_pascal(self) -> bool {
        self.pascal_case
    }

    /// Whether runs of consecutive uppercase letters are kept as they are.
    pub closed spec fn keeps_uppercase_runs(self) -> bool {
        self.preserve_consecutive_uppercase
    }

    /// Whether a digit run is a word boundary (the next letter is uppercased).
    pub closed spec fn capitalizes_after_number(self) -> bool {
        self.capitalize_after_number
    }

    /// The default options: no `PascalCase`, uppercase runs not kept, a digit
    /// run is a word boundary.
    pub closed spec fn defaults() -> Self {
        Options { pascal_case: false, preserve_consecutive_uppercase: false, capitalize_after_number: true }
    }

    /// Default options (`capitalize_after_number = true`).
    pub fn new() -> (o: Self)
        ensures
            o == Self::defaults(),
            !o.is_pascal(),
            !o.keeps_uppercase_runs(),
            o.capitalizes_after_number(),
    {
        Self::default()
    }

    /// Uppercase the first character of the result (`PascalCase`).
    pub fn pascal_case(self, value: bool) -> (o: Self)
        ensures
            o.is_pascal() == value,
            o.keeps_uppercase_runs() == self.keeps_uppercase_runs(),
            o.capitalizes_after_number() == self.capitalizes_after_number(),
    {
        let mut o = self;
        o.pascal_case = value;
        o
    }

    /// Keep runs of consecutive uppercase letters as-is (`XMLHttp` instead of `xmlHttp`).
    pub fn preserve_consecutive_uppercase(self, value: bool) -> (o: Self)
        ensures
            o.is_pascal() == self.is_pascal(),
            o.keeps_uppercase_runs() == value,
            o.capitalizes_after_number() == self.capitalizes_after_number(),
    {
        let mut o = self;
        o.preserve_consecutive_uppercase = value;
        o
    }

    /// Whether a digit sequence forms a word boundary (so the following letter is
    /// uppercased). Defaults to `true`.
    pub fn capitalize_after_number(self, value: bool) -> (o: Self)
        ensures
            o.is_pascal() == self.is_pascal(),
            o.keeps_uppercase_runs() == self.keeps_uppercase_runs(),
            o.capitalizes_after_number() == value,
    {
        let mut o = self;
        o.capitalize_after_number = value;
        o
    }

    /// Reads the `PascalCase` switch.
    pub(crate) fn get_pascal_case(&self) -> (b: bool)
        ensures
            b == self.is_pascal(),
    {
        self.pascal_case
    }

    /// Reads the switch that keeps uppercase runs.
    pub(crate) fn get_preserve_consecutive_uppercase(&self) -> (b: bool)
        ensures
            b == self.keeps_uppercase_runs(),
    {
        self.preserve_consecutive_uppercase
    }

    /// Reads the switch that makes a digit run a word boundary.
    pub(crate) fn get_capitalize_after_number(&self) -> (b: bool)
        ensures
            b == self.capitalizes_after_number(),
    {
        self.capitalize_after_number
    }
}

impl Default for Options {
    fn default() -> (o: Self)
        ensures
            o == Self::defaults(),
            !o.is_pascal(),
            !o.keeps_uppercase_runs(),
            o.capitalizes_after_number(),
    {
        Options {
            pascal_case: false,
            preserve_consecutive_uppercase: false,
            capitalize_after_number: true,
        }
    }
}

} // verus!
