//! The pattern by which rows are filtered: a regular expression that is
//! compiled anew after every edit and that matches nothing while it is malformed.

use vstd::prelude::*;
use vstd::string::*;

verus! {

/// A compiled expression of the `regex` crate, a `regex::Regex`. Nothing
/// inside it is visible to the proofs: what is known of one is what
/// `compile`, `pattern_of` and `search` state.
#[verifier::external_body]
#[derive(Debug)]
pub struct Matcher {
    inner: regex::Regex,
}

/// Why the `regex` crate could not compile a pattern.
#[verifier::external_type_specification]
#[verifier::external_body]
pub struct ExError(regex::Error);

/// What `regex::RegexBuilder::build` gives for `pattern`, letter case
/// ignored or not: the compiled expression, or why there is none.
pub uninterp spec fn compiled(pattern: Seq<char>, ignore_case: bool) -> Result<Matcher, regex::Error>;

/// The pattern that `expression` was compiled from, as its `as_str` gives it.
pub uninterp spec fn source_of(expression: Matcher) -> Seq<char>;

/// Whether `expression` matches somewhere in `text`, as its `is_match` tells.
pub uninterp spec fn finds(expression: Matcher, text: Seq<char>) -> bool;

/// `regex::RegexBuilder`: `new` with the pattern, `case_insensitive` with
/// the flag, then `build`. The same pattern and flag give the same
/// expression or the same error, and an expression remembers its pattern.
#[verifier::external_body]
fn compile(pattern: &str, ignore_case: bool) -> (r: Result<Matcher, regex::Error>)
    ensures
        r == compiled(pattern@, ignore_case),
        r matches Ok(expression) ==> source_of(expression) == pattern@,
{
    match regex::RegexBuilder::new(pattern).case_insensitive(ignore_case).build() {
        Ok(inner) => Ok(Matcher { inner }),
        Err(cause) => Err(cause),
    }
}

/// `is_match` of the compiled expression: whether it matches anywhere in `text`.
#[verifier::external_body]
fn search(expression: &Matcher, text: &str) -> (r: bool)
    ensures
        r == finds(*expression, text@),
{
    expression.inner.is_match(text)
}

/// `as_str` of the compiled expression: the pattern it was compiled from.
#[verifier::external_body]
fn pattern_of(expression: &Matcher) -> (r: &str)
    ensures
        r@ == source_of(*expression),
{
    expression.inner.as_str()
}

/// `text` without its last character; `text` itself where it is empty.
pub open spec fn without_last(text: Seq<char>) -> Seq<char> {
    if text.len() == 0 {
        text
    } else {
        text.drop_last()
    }
}

/// A pattern that does not compile, and why.
#[derive(Debug)]
pub struct PatternError {
    pub pattern: String,
    pub cause: regex::Error,
}

/// A pattern as the user has typed it so far.
#[derive(Debug)]
#[allow(inconsistent_fields)]
pub enum Regex {
    /// The pattern compiles: rows are matched against `regex`.
    Regex { regex: Matcher },
    /// The pattern `regex` does not compile: no row matches.
    Invalid { regex: String },
}

impl Regex {
    /// The pattern as text.
    pub open spec fn text(&self) -> Seq<char> {
        match self {
            Regex::Regex { regex } => source_of(*regex),
            Regex::Invalid { regex } => regex@,
        }
    }

    /// Whether a row of the name `name` passes.
    pub open spec fn matches(&self, name: Seq<char>) -> bool {
        match self {
            Regex::Regex { regex } => finds(*regex, name),
            Regex::Invalid { .. } => false,
        }
    }

    /// Whether `self` is what the pattern `pattern` stands for: its compiled
    /// expression, letter case ignored, or `Invalid` with the pattern's text.
    /// Either way the text of `self` is `pattern`.
    pub open spec fn stands_for(&self, pattern: Seq<char>) -> bool {
        &&& self.text() == pattern
        &&& match compiled(pattern, true) {
            Ok(expression) => *self == (Regex::Regex { regex: expression }),
            Err(_) => self is Invalid,
        }
    }

    /// The matcher for `pattern`; one that matches nothing where `pattern` does not compile.
    pub fn lenient(pattern: String) -> (r: Regex)
        ensures
            r.stands_for(pattern@),
    {
        match compile(pattern.as_str(), true) {
            Ok(regex) => Regex::Regex { regex },
            Err(_) => Regex::Invalid { regex: pattern },
        }
    }

    /// The matcher for `regex`, or the reason why `regex` does not compile.
    pub fn new(regex: &str) -> (r: Result<Regex, PatternError>)
        ensures
            match compiled(regex@, true) {
                Ok(expression) => r == Ok::<Regex, PatternError>(Regex::Regex { regex: expression }),
                Err(cause) => r matches Err(error) && error.pattern@ == regex@ && error.cause
                    == cause,
            },
            r matches Ok(matcher) ==> matcher.text() == regex@,
    {
        match compile(regex, true) {
            Ok(expression) => Ok(Regex::Regex { regex: expression }),
            Err(cause) => Err(PatternError { pattern: String::from_str(regex), cause }),
        }
    }

    /// The matcher for the empty pattern.
    pub fn empty() -> (r: Result<Regex, PatternError>)
        ensures
            match compiled(Seq::<char>::empty(), true) {
                Ok(expression) => r == Ok::<Regex, PatternError>(Regex::Regex { regex: expression }),
                Err(cause) => r matches Err(error) && error.pattern@ == Seq::<char>::empty()
                    && error.cause == cause,
            },
    {
        let pattern = String::new();
        Regex::new(pattern.as_str())
    }

    /// Whether `s` passes: never, while the pattern does not compile.
    pub fn is_match(&self, s: &str) -> (r: bool)
        ensures
            r == self.matches(s@),
    {
        match self {
            Regex::Regex { regex } => search(regex, s),
            Regex::Invalid { .. } => false,
        }
    }

    /// The pattern as it was typed, whether it compiles or not.
    pub fn as_str(&self) -> (r: &str)
        ensures
            r@ == self.text(),
    {
        match self {
            Regex::Regex { regex } => pattern_of(regex),
            Regex::Invalid { regex } => regex.as_str(),
        }
    }

    /// Lets `f` edit the pattern's text and compiles what `f` leaves.
    pub fn modify<F>(&mut self, f: F) where F: FnOnce(&mut String)
        requires
            forall|text: &mut String| (*text)@ == old(self).text() ==> f.requires((text,)),
        ensures
            exists|text: &mut String|
                (*text)@ == old(self).text() && f.ensures((text,), ()) && final(self).stands_for(
                    (*final(text))@,
                ),
    {
        let mut regex: String = String::from_str(self.as_str());
        f(&mut regex);
        *self = Regex::lenient(regex);
    }

    /// Adds `c` at the end of the pattern.
    pub fn push(&mut self, c: char)
        ensures
            final(self).stands_for(old(self).text().push(c)),
    {
        self.modify(|text: &mut String|
            ensures final(text)@ == old(text)@.push(c),
            { text.push(c); });
    }

    /// Takes the last character of the pattern away, if it has one.
    pub fn pop(&mut self)
        ensures
            final(self).stands_for(without_last(old(self).text())),
    {
        self.modify(|text: &mut String|
            ensures final(text)@ == without_last(old(text)@),
            { let _ = text.pop(); });
    }
}

/// A pattern that has been found to compile.
#[derive(Debug)]
pub struct ValidatedRegexString(pub Matcher);

impl ValidatedRegexString {
    /// `regex` as a validated pattern, or the reason why it does not compile.
    pub fn new(regex: &str) -> (r: Result<ValidatedRegexString, PatternError>)
        ensures
            match compiled(regex@, true) {
                Ok(expression) => r == Ok::<ValidatedRegexString, PatternError>(
                    ValidatedRegexString(expression),
                ),
                Err(cause) => r matches Err(error) && error.pattern@ == regex@ && error.cause
                    == cause,
            },
            r matches Ok(valid) ==> source_of(valid.0) == regex@,
    {
        match compile(regex, true) {
            Ok(expression) => Ok(ValidatedRegexString(expression)),
            Err(cause) => Err(PatternError { pattern: String::from_str(regex), cause }),
        }
    }

    /// The matcher for this pattern.
    pub fn into_regex(self) -> (r: Regex)
        ensures
            r == (Regex::Regex { regex: self.0 }),
    {
        Regex::Regex { regex: self.0 }
    }
}

} // verus!
