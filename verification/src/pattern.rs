//! The regular-expression engine behind the scanner.
//!
//! Nothing in this file is proved: it states what the `regex` crate is
//! relied on to do.
use crate::token::{span_is_valid, Span};
use vstd::prelude::*;
use vstd::utf8::encode_utf8;

verus! {

/// `regex::Error`: why a pattern could not be compiled.
#[verifier::external_type_specification]
#[verifier::external_body]
pub struct ExPatternError(regex::Error);

/// Whether `regex::Regex::new` accepts `pattern`: the pattern is well-formed
/// and what it compiles to stays under the size limit of the default
/// configuration. The limit is counted in bytes of the compiled program as
/// the build target lays it out, so the name stands for the answer on that
/// target.
pub uninterp spec fn pattern_compiles(pattern: Seq<char>) -> bool;

/// The successive non-overlapping matches of the regular expression
/// `pattern` in `text`, from left to right, as byte ranges of `text`.
/// It is meaningful for patterns that compile.
pub uninterp spec fn match_spans(pattern: Seq<char>, text: Seq<char>) -> Seq<Span>;

/// Compiles `pattern` with `regex::Regex::new` and collects the matches that
/// `regex::Regex::find_iter` yields for `text`.
///
/// Trusted: the search fails exactly where the pattern does not compile,
/// which [`pattern_compiles`] names. A pattern that compiles gives exactly
/// the matches that [`match_spans`] names. Each match starts no later than
/// it ends, with both offsets on character boundaries of `text`, as the
/// documentation of `regex::Match::start` and `regex::Match::end`
/// guarantees, and no match begins before the one before it has ended, as
/// `find_iter` yields successive non-overlapping matches.
#[verifier::external_body]
pub(crate) fn find_spans(pattern: &str, text: &str) -> (found: Result<Vec<Span>, regex::Error>)
    ensures
        found is Ok <==> pattern_compiles(pattern@),
        found matches Ok(spans) ==> spans@ == match_spans(pattern@, text@),
        found matches Ok(spans) ==> forall|i: int, j: int|
            0 <= i < j < spans@.len() ==> (#[trigger] spans@[i]).end <= (
            #[trigger] spans@[j]).start,
        found matches Ok(spans) ==> forall|i: int|
            0 <= i < spans@.len() ==> span_is_valid(
                encode_utf8(text@),
                #[trigger] spans@[i].start as int,
                spans@[i].end as int,
            ),
{
    let compiled = regex::Regex::new(pattern)?;
    Ok(compiled.find_iter(text).map(|m| Span { start: m.start(), end: m.end() }).collect())
}

} // verus!
