use vstd::prelude::*;
use vstd::string::*;

verus! {

#[verifier::external_type_specification]
#[verifier::external_body]
pub struct ExRegex(regex::Regex);

#[verifier::external_type_specification]
#[verifier::external_body]
pub struct ExRegexError(regex::Error);

/// Whether `regex::Regex::new` accepts this pattern (its syntax, and its size limits).
pub uninterp spec fn regex_compiles(pattern: Seq<char>) -> bool;

/// Whether the compiled pattern matches somewhere in `text`, as `regex::Regex::is_match` says.
pub uninterp spec fn regex_finds(pattern: Seq<char>, text: Seq<char>) -> bool;

/// The successive non-overlapping leftmost-first matches of the pattern in `text`, as
/// `regex::Regex::find_iter` gives them: byte offsets of start and end, and the matched text.
pub uninterp spec fn regex_find_all(pattern: Seq<char>, text: Seq<char>) -> Seq<(int, int, Seq<char>)>;

/// Relies on `regex::Regex::new`: it succeeds exactly on the patterns it accepts.
#[verifier::external_body]
fn new_regex(pattern: &str) -> (r: Result<regex::Regex, regex::Error>)
    ensures
        r is Ok <==> regex_compiles(pattern@),
{
    regex::Regex::new(pattern)
}

pub open spec fn found_view(v: Seq<(usize, usize, String)>) -> Seq<(int, int, Seq<char>)> {
    v.map_values(|m: (usize, usize, String)| (m.0 as int, m.1 as int, m.2@))
}

/// A regular expression together with the text it was compiled from.
pub struct Pattern {
    source: String,
    regex: regex::Regex,
}

impl Pattern {
    /// The text the expression was compiled from.
    pub closed spec fn source(&self) -> Seq<char> {
        self.source@
    }

    /// Compiles a regular expression.
    pub fn compile(pattern: &str) -> (r: Option<Pattern>)
        ensures
            r is Some <==> regex_compiles(pattern@),
            r matches Some(p) ==> p.source() == pattern@,
    {
        match new_regex(pattern) {
            Ok(regex) => Some(Pattern { source: String::from_str(pattern), regex }),
            Err(_) => None,
        }
    }

    /// Relies on `regex::Regex::is_match` of the expression compiled from `self.source()`.
    #[verifier::external_body]
    pub fn is_match(&self, text: &str) -> (r: bool)
        ensures
            r == regex_finds(self.source(), text@),
    {
        self.regex.is_match(text)
    }

    /// Relies on `regex::Regex::find_iter` of the expression compiled from `self.source()`.
    #[verifier::external_body]
    pub fn find_all(&self, text: &str) -> (r: Vec<(usize, usize, String)>)
        ensures
            found_view(r@) == regex_find_all(self.source(), text@),
            forall|i: int| 0 <= i < r@.len() ==> (#[trigger] r@[i]).0 <= r@[i].1,
    {
        self.regex.find_iter(text).map(|m| (m.start(), m.end(), m.as_str().to_string())).collect()
    }
}

} // verus!
