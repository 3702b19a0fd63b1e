# camelcase

Convert a string to `camelCase`: `foo-bar` gives `fooBar`, `foo_bar_baz` gives
`fooBarBaz`, `XML-http` gives `xmlHttp`. Dash, dot, underscore and space
separate words; leading `_` and `$` are kept; `Options` switches on
`PascalCase`, keeps runs of uppercase letters, or stops a run of digits from
being a word boundary.

The library is written in Verus. Every step states its result in its
`ensures` clause over the specification functions beside it:

- `src/lib.rs`: the public conversions (`camel_case`, `camel_case_with`,
  `camel_case_slice`) and the specification `camel_cased` they meet.
- `src/options.rs`: `Options` and its builders.
- `src/steps.rs`: trimming, separator stripping, the case-boundary scan and
  the case-preserving pass.
- `src/captures.rs`: regular-expression matches as plain text pieces, and the
  two rewrites made of them.
- `src/text.rs`: Unicode case queries and mappings of the standard library,
  and conversions between `&str`, `String` and `Vec<char>`.
- `src/laws.rs`: properties of the conversion as a whole, proved.
- `src/scan_laws.rs`: character-by-character properties of the case-boundary
  scan and of the case-preserving pass, proved.
- `src/switch_laws.rs` and `src/pascal_law.rs`: what each `Options` switch
  changes and leaves unchanged, proved under stated premises on the case
  answers and the pattern matches.
