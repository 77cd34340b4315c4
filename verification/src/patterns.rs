//! The patterns that select the files of an ingest.

use crate::models::DEFAULT_FILE_PATTERN;
use vstd::prelude::*;

verus! {

/// The compiled regular expression of the `regex` crate.
#[verifier::external_type_specification]
#[verifier::external_body]
pub struct ExRegex(regex::Regex);

/// The texts in which a compiled pattern has a match.
pub uninterp spec fn regex_texts(regex: regex::Regex) -> Set<Seq<char>>;

/// What becomes of a pattern on a machine whose greatest size is `greatest_size`: the texts
/// in which it has a match or, where it is no regular expression or too large, what is
/// wrong with it.
pub uninterp spec fn pattern_outcome(pattern: Seq<char>, greatest_size: nat) -> Result<
    Set<Seq<char>>,
    Seq<char>,
>;

/// What becomes of a pattern on the machine that the library is compiled for.
pub open spec fn compiled_pattern(pattern: Seq<char>) -> Result<Set<Seq<char>>, Seq<char>> {
    pattern_outcome(pattern, usize::MAX as nat)
}

/// `regex::Regex::new`: compiles a pattern. What the pattern matches is a function of
/// its text alone. How large a compiled pattern may be is limited in bytes of memory, so
/// whether there is an error, and its message, depend on the width of a pointer, too.
#[verifier::external_body]
fn compile(pattern: &str) -> (result: Result<regex::Regex, String>)
    ensures
        match result {
            Ok(regex) => pattern_outcome(pattern@, usize::MAX as nat) == Ok::<
                Set<Seq<char>>,
                Seq<char>,
            >(regex_texts(regex)),
            Err(message) => pattern_outcome(pattern@, usize::MAX as nat) == Err::<
                Set<Seq<char>>,
                Seq<char>,
            >(message@),
        },
{
    regex::Regex::new(pattern).map_err(|error| error.to_string())
}

/// `regex::Regex::is_match`: whether the pattern has a match anywhere in `text`.
#[verifier::external_body]
fn has_match(regex: &regex::Regex, text: &str) -> (found: bool)
    ensures
        found == regex_texts(*regex).contains(text@),
{
    regex.is_match(text)
}

/// A pattern that is no regular expression.
#[derive(Clone, Debug, PartialEq, Eq)]
pub struct PatternError {
    pub message: String,
}

impl PatternError {
    /// What is wrong with the pattern.
    pub fn message(&self) -> (text: String)
        ensures
            text@ == self.message@,
    {
        self.message.clone()
    }
}

/// The pattern of a request: the one it names, or the one that every path matches.
pub open spec fn effective_pattern(file_pattern: Option<&str>) -> Seq<char> {
    match file_pattern {
        Some(pattern) => pattern@,
        None => DEFAULT_FILE_PATTERN@,
    }
}

/// The pattern that an ingest will use, if it is a regular expression.
pub fn resolve_file_pattern(file_pattern: Option<&str>) -> (result: Result<String, PatternError>)
    ensures
        match result {
            Ok(pattern) => {
                &&& pattern@ == effective_pattern(file_pattern)
                &&& compiled_pattern(pattern@) is Ok
            },
            Err(error) => compiled_pattern(effective_pattern(file_pattern)) == Err::<
                Set<Seq<char>>,
                Seq<char>,
            >(error.message@),
        },
{
    let pattern: &str = match file_pattern {
        Some(pattern) => pattern,
        None => DEFAULT_FILE_PATTERN,
    };
    match compile(pattern) {
        Ok(_) => Ok(pattern.to_owned()),
        Err(message) => Err(PatternError { message }),
    }
}

/// A compiled pattern.
pub struct FilePattern {
    regex: regex::Regex,
}

impl View for FilePattern {
    type V = Set<Seq<char>>;

    /// The paths that the pattern selects.
    closed spec fn view(&self) -> Set<Seq<char>> {
        regex_texts(self.regex)
    }
}

impl FilePattern {
    /// Whether the pattern selects `path`.
    pub fn is_match(&self, path: &str) -> (selected: bool)
        ensures
            selected == self@.contains(path@),
    {
        has_match(&self.regex, path)
    }
}

/// Compiles the pattern of a queued job.
pub fn compile_file_pattern(file_pattern: &str) -> (result: Result<FilePattern, PatternError>)
    ensures
        match result {
            Ok(pattern) => compiled_pattern(file_pattern@) == Ok::<Set<Seq<char>>, Seq<char>>(
                pattern@,
            ),
            Err(error) => compiled_pattern(file_pattern@) is Err && error.message@
                == "invalid file pattern stored in queued job: "@ + file_pattern@,
        },
{
    match compile(file_pattern) {
        Ok(regex) => Ok(FilePattern { regex }),
        Err(_) => Err(
            PatternError {
                message: String::from_str("invalid file pattern stored in queued job: ").concat(
                    file_pattern,
                ),
            },
        ),
    }
}

/// A pattern that a request was accepted with compiles when its job runs.
pub proof fn lemma_resolved_compiles(
    file_pattern: Option<&str>,
    resolved: Result<String, PatternError>,
    stored: &str,
    compiled: Result<FilePattern, PatternError>,
)
    requires
        call_ensures(resolve_file_pattern, (file_pattern,), resolved),
        resolved is Ok,
        stored@ == resolved->Ok_0@,
        call_ensures(compile_file_pattern, (stored,), compiled),
    ensures
        compiled is Ok,
{
}

} // verus!
