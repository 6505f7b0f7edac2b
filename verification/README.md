# path_matcher

Ant-style path matching, verified with Verus: patterns with `?`, `*`, `**`
and URI template variables (`{name}`, `{name:regex}`) matched against paths
split on a separator.

- `src/text.rs`: splitting, trimming and comparing character sequences.
- `src/engine.rs`: the trusted calls into the `regex` and `substring` crates.
- `src/string_matcher.rs`: matching one pattern segment against one path segment.
- `src/path_spec.rs`: what a whole match computes, as specification functions.
- `src/path_matcher.rs`: `AntPathMatcher`, its caches and the `PathMatcher` trait.
- `src/path_matcher_v2.rs`: the smaller second matcher and its separator suffixes.
- `src/laws.rs`: properties proved of the matcher, among them what a full and a
  start match mean in terms of Ant-style segment matching.
- `src/fault.rs`: the inputs on which a match cannot be carried out.
