//! The search pattern of a session: a compiled regular expression, or the
//! text of one that does not compile.

use vstd::prelude::*;

verus! {

/// `regex::Regex`, a compiled regular expression, of which nothing is seen
/// here but what the functions below tell.
#[verifier::external_type_specification]
#[verifier::external_body]
pub struct ExRegex(regex::Regex);

/// `regex::Error`, why a pattern did not compile.
#[verifier::external_type_specification]
#[verifier::external_body]
pub struct ExRegexError(regex::Error);

/// Whether `pattern` compiles to a regular expression.
pub uninterp spec fn compiles(pattern: Seq<char>) -> bool;

/// The text that a compiled regular expression was made from.
pub uninterp spec fn regex_source(regex: regex::Regex) -> Seq<char>;

/// Whether a compiled regular expression matches somewhere in `haystack`.
pub uninterp spec fn regex_matches(regex: regex::Regex, haystack: Seq<char>) -> bool;

/// `regex::Regex::new`: compiles `pattern`. Whether it succeeds depends on
/// the pattern alone, an empty pattern always compiles, and the compiled
/// expression remembers the text it was made from.
#[verifier::external_body]
fn regex_new(pattern: &str) -> (compiled: Result<regex::Regex, regex::Error>)
    ensures
        compiled is Ok <==> compiles(pattern@),
        pattern@.len() == 0 ==> compiled is Ok,
        compiled matches Ok(regex) ==> regex_source(regex) == pattern@,
{
    regex::Regex::new(pattern)
}

/// `regex::Regex::is_match`: whether the expression matches somewhere in
/// `haystack`. An expression made from the empty text matches in every
/// haystack.
#[verifier::external_body]
fn regex_is_match(regex: &regex::Regex, haystack: &str) -> (found: bool)
    ensures
        found == (regex_source(*regex).len() == 0 || regex_matches(*regex, haystack@)),
{
    regex.is_match(haystack)
}

/// `regex::Regex::as_str`: the text that the expression was made from.
#[verifier::external_body]
fn regex_as_str(regex: &regex::Regex) -> (source: &str)
    ensures
        source@ == regex_source(*regex),
{
    regex.as_str()
}

/// The `Display` text of a `regex::Error`. Nothing is claimed of it.
#[verifier::external_body]
fn regex_error_message(error: &regex::Error) -> String {
    format!("{}", error)
}

/// Why a pattern could not be compiled.
#[derive(Debug)]
pub struct PatternError {
    pub message: String,
}

/// A search pattern. While the operator types, the text may not compile: the
/// pattern then keeps the text and matches nothing.
#[derive(Debug)]
pub enum Pattern {
    Compiled { regex: regex::Regex },
    Invalid { text: String },
}

impl View for Pattern {
    type V = Seq<char>;

    /// The text of the pattern.
    open spec fn view(&self) -> Seq<char> {
        match self {
            Pattern::Compiled { regex } => regex_source(*regex),
            Pattern::Invalid { text } => text@,
        }
    }
}

impl Pattern {
    /// Whether the pattern holds a compiled expression.
    pub open spec fn is_valid(&self) -> bool {
        self is Compiled
    }

    /// Whether the pattern matches somewhere in `haystack`: an invalid
    /// pattern matches nothing, the empty pattern matches everywhere.
    pub open spec fn accepts(&self, haystack: Seq<char>) -> bool {
        match self {
            Pattern::Compiled { regex } => regex_source(*regex).len() == 0 || regex_matches(
                *regex,
                haystack,
            ),
            Pattern::Invalid { .. } => false,
        }
    }

    /// The empty pattern, which matches everything.
    pub fn empty() -> (pattern: Result<Pattern, PatternError>)
        ensures
            pattern matches Ok(p) && p.is_valid() && p@ == Seq::<char>::empty(),
    {
        proof {
            reveal_strlit("");
        }
        match regex_new("") {
            Ok(regex) => {
                Ok(Pattern::new(regex))
            },
            Err(error) => Err(PatternError { message: regex_error_message(&error) }),
        }
    }

    /// The pattern of a compiled expression.
    pub fn new(regex: regex::Regex) -> (pattern: Pattern)
        ensures
            pattern == (Pattern::Compiled { regex }),
    {
        Pattern::Compiled { regex }
    }

    /// Whether the pattern matches somewhere in `s`.
    pub fn is_match(&self, s: &str) -> (found: bool)
        ensures
            found == self.accepts(s@),
    {
        match self {
            Pattern::Compiled { regex } => regex_is_match(regex, s),
            Pattern::Invalid { .. } => false,
        }
    }

    /// The text of the pattern, whether it compiles or not.
    pub fn as_str(&self) -> (text: &str)
        ensures
            text@ == self@,
    {
        match self {
            Pattern::Compiled { regex } => regex_as_str(regex),
            Pattern::Invalid { text } => text.as_str(),
        }
    }

    /// Lets `f` edit the text of the pattern and compiles the result: the
    /// pattern is valid afterwards exactly where the edited text compiles.
    pub fn modify<F: FnOnce(&mut String)>(&mut self, f: F)
        requires
            forall|text: &mut String| (*text)@ == old(self)@ ==> call_requires(f, (text,)),
        ensures
            exists|text: &mut String|
                {
                    &&& (*text)@ == old(self)@
                    &&& #[trigger] call_ensures(f, (text,), ())
                    &&& final(self)@ == (*final(text))@
                    &&& final(self).is_valid() <==> compiles((*final(text))@)
                },
    {
        let mut text: String = self.as_str().to_owned();
        f(&mut text);
        *self = match regex_new(text.as_str()) {
            Ok(regex) => Pattern::Compiled { regex },
            Err(_) => Pattern::Invalid { text },
        }
    }
}

} // verus!
