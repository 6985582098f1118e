//! Compiled glob patterns and regular expressions.

use vstd::prelude::*;

use globset::{Glob, GlobSet, GlobSetBuilder};
use regex::{Regex, RegexBuilder};

use crate::text::chars_of;

verus! {

/// A compiled set of globs, held opaque.
#[verifier::external_type_specification]
#[verifier::external_body]
pub struct ExGlobSet(GlobSet);

/// The deepest nesting of `{..}` alternates that a glob may have to be
/// compiled. globset builds and frees the parsed glob by recursing once per
/// level, so much deeper nesting would exhaust the stack; alternates nested
/// more than 250 deep with anything in them already make globset's regex too
/// deeply nested to build.
pub const MAX_GLOB_DEPTH: usize = 1024;

/// The deepest run of open alternates that globset's parser reaches on the
/// rest of `p` from position `i`, given the scanner's `mode`, the number
/// `depth` of alternates open and the deepest run `deepest` so far.
///
/// Modes: 0 outside a class; 1 after a backslash, whose next character is
/// taken literally; 2 just after `[`, where `!` or `^` negates; 3 at the first
/// character of a class, where `]` is literal; 4 inside a class, up to `]`.
/// A `}` with no alternate open ends globset's parse with an error; the scan
/// goes on, which can only raise the count.
pub open spec fn brace_scan(p: Seq<char>, i: int, mode: int, depth: nat, deepest: nat) -> nat
    decreases p.len() - i,
{
    if i < 0 || i >= p.len() {
        deepest
    } else {
        let c = p[i];
        if mode == 1 {
            brace_scan(p, i + 1, 0, depth, deepest)
        } else if mode == 2 && (c == '!' || c == '^') {
            brace_scan(p, i + 1, 3, depth, deepest)
        } else if mode == 2 || mode == 3 {
            brace_scan(p, i + 1, 4, depth, deepest)
        } else if mode == 4 {
            brace_scan(p, i + 1, if c == ']' { 0 } else { 4 }, depth, deepest)
        } else if c == '\\' {
            brace_scan(p, i + 1, 1, depth, deepest)
        } else if c == '[' {
            brace_scan(p, i + 1, 2, depth, deepest)
        } else if c == '{' {
            brace_scan(p, i + 1, 0, depth + 1, if deepest > depth { deepest } else { depth + 1 })
        } else if c == '}' {
            brace_scan(p, i + 1, 0, if depth > 0 { (depth - 1) as nat } else { 0 }, deepest)
        } else {
            brace_scan(p, i + 1, 0, depth, deepest)
        }
    }
}

/// How deeply the `{..}` alternates of the glob `p` nest, as globset parses
/// it (backslash escapes, `[..]` classes).
pub open spec fn glob_depth(p: Seq<char>) -> nat {
    brace_scan(p, 0, 0, 0, 0)
}

/// Whether the alternates of `pattern` nest no deeper than `MAX_GLOB_DEPTH`.
pub fn glob_depth_ok(pattern: &str) -> (r: bool)
    ensures
        r == (glob_depth(pattern@) <= MAX_GLOB_DEPTH),
{
    let cs = chars_of(pattern);
    let n = cs.len();
    let mut i: usize = 0;
    let mut mode: u8 = 0;
    let mut depth: usize = 0;
    let mut deepest: usize = 0;
    while i < n
        invariant
            n == cs@.len(),
            cs@ == pattern@,
            i <= n,
            mode <= 4,
            depth <= i,
            deepest <= i,
            glob_depth(pattern@) == brace_scan(cs@, i as int, mode as int, depth as nat, deepest as nat),
        decreases n - i,
    {
        let c = cs[i];
        if mode == 1 {
            mode = 0;
        } else if mode == 2 && (c == '!' || c == '^') {
            mode = 3;
        } else if mode == 2 || mode == 3 {
            mode = 4;
        } else if mode == 4 {
            if c == ']' {
                mode = 0;
            }
        } else if c == '\\' {
            mode = 1;
        } else if c == '[' {
            mode = 2;
        } else if c == '{' {
            depth = depth + 1;
            if deepest < depth {
                deepest = depth;
            }
        } else if c == '}' {
            if depth > 0 {
                depth = depth - 1;
            }
        }
        i = i + 1;
    }
    deepest <= MAX_GLOB_DEPTH
}

/// A compiled regular expression, held opaque.
#[verifier::external_type_specification]
#[verifier::external_body]
pub struct ExRegex(Regex);

/// Whether globset accepts `pattern` as a glob and builds a matcher for it.
pub uninterp spec fn glob_accepts(pattern: Seq<char>) -> bool;

/// Whether `path` matches the glob `pattern`, as a globset matcher built for
/// that one glob decides it.
pub uninterp spec fn glob_matches(pattern: Seq<char>, path: Seq<char>) -> bool;

/// Whether the regex crate accepts `pattern`, with case folding or without.
pub uninterp spec fn regex_accepts(pattern: Seq<char>, case_insensitive: bool) -> bool;

/// Whether the regular expression `pattern` (with case folding or without)
/// matches somewhere in `text`, as the regex crate decides it.
pub uninterp spec fn regex_finds(pattern: Seq<char>, case_insensitive: bool, text: Seq<char>) -> bool;

/// A glob pattern together with the matcher compiled from it. Values are made
/// only by `GlobPattern::compile` (and copied by `duplicate`), so the matcher
/// is always the one for `text`.
#[derive(Debug)]
pub struct GlobPattern {
    text: String,
    matcher: GlobSet,
}

/// A regular expression together with the matcher compiled from it. Values are
/// made only by `RegexPattern::compile`, so the matcher is always the one for
/// `text` and `case_insensitive`.
#[derive(Debug)]
pub struct RegexPattern {
    text: String,
    case_insensitive: bool,
    regex: Regex,
}

impl GlobPattern {
    /// The pattern text the matcher was compiled from.
    pub closed spec fn pattern(&self) -> Seq<char> {
        self.text@
    }

    /// Relies on globset::Glob::new, which parses the pattern or says why not,
    /// and on GlobSetBuilder::add and GlobSetBuilder::build, which build the
    /// matcher or say why not (a regex over its size limit, say). Both recurse
    /// once per level of nested alternates, which the depth bound keeps small.
    #[verifier::external_body]
    pub(crate) fn compile(pattern: &str) -> (r: Result<GlobPattern, globset::Error>)
        requires
            glob_depth(pattern@) <= MAX_GLOB_DEPTH,
        ensures
            r is Ok <==> glob_accepts(pattern@),
            r matches Ok(g) ==> g.pattern() == pattern@,
    {
        match Glob::new(pattern) {
            Ok(g) => match GlobSetBuilder::new().add(g).build() {
                Ok(set) => Ok(GlobPattern { text: pattern.to_string(), matcher: set }),
                Err(e) => Err(e),
            },
            Err(e) => Err(e),
        }
    }

    /// Relies on globset::GlobSet::is_match: whether `path` matches the one
    /// glob this set was built from.
    #[verifier::external_body]
    pub(crate) fn is_match(&self, path: &str) -> (r: bool)
        ensures
            r == glob_matches(self.pattern(), path@),
    {
        self.matcher.is_match(path)
    }

    /// A copy of this pattern.
    pub fn duplicate(&self) -> (r: GlobPattern)
        ensures
            r.pattern() == self.pattern(),
    {
        GlobPattern { text: self.text.clone(), matcher: clone_matcher(&self.matcher) }
    }
}

/// Relies on GlobSet's derived Clone: a matcher for the same glob.
#[verifier::external_body]
fn clone_matcher(m: &GlobSet) -> (r: GlobSet) {
    m.clone()
}

impl RegexPattern {
    /// The expression text the matcher was compiled from.
    pub closed spec fn pattern(&self) -> Seq<char> {
        self.text@
    }

    /// Whether the matcher folds case.
    pub closed spec fn folds_case(&self) -> bool {
        self.case_insensitive
    }

    /// Relies on regex::RegexBuilder (new, case_insensitive, build), which
    /// accepts the expression or says why not; the error is kept as its text.
    #[verifier::external_body]
    pub(crate) fn compile(pattern: &str, case_insensitive: bool) -> (r: Result<RegexPattern, String>)
        ensures
            r is Ok <==> regex_accepts(pattern@, case_insensitive),
            r matches Ok(x) ==> x.pattern() == pattern@ && x.folds_case() == case_insensitive,
    {
        match RegexBuilder::new(pattern).case_insensitive(case_insensitive).build() {
            Ok(regex) => Ok(RegexPattern { text: pattern.to_string(), case_insensitive, regex }),
            Err(e) => Err(e.to_string()),
        }
    }

    /// Relies on regex::Regex::is_match: whether the expression matches
    /// somewhere in `text`.
    #[verifier::external_body]
    pub(crate) fn is_match(&self, text: &str) -> (r: bool)
        ensures
            r == regex_finds(self.pattern(), self.folds_case(), text@),
    {
        self.regex.is_match(text)
    }
}

} // verus!
