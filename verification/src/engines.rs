//! Trusted bindings to the multi-pattern matcher and the regular
//! expression engine. Everything here is believed, not proved: each item
//! names the outside function it relies on. What those functions return is
//! a function of their arguments alone, so the results carry names
//! (`regex_ok`, `captures_of`, `ac_build_ok`) that the callers' own
//! contracts speak of exactly.

use vstd::prelude::*;

verus! {

#[verifier::external_type_specification]
#[verifier::external_body]
pub struct ExAhoCorasick(aho_corasick::AhoCorasick);

/// Whether the pattern text compiles as a regular expression.
pub uninterp spec fn regex_ok(pattern: Seq<char>) -> bool;

/// The named-capture report of matching a (compiling) pattern against a
/// haystack: `None` when the pattern does not match; otherwise every named
/// group of the pattern in the pattern's order, each with the matched text
/// of the groups that participated in the match.
pub uninterp spec fn captures_of(pattern: Seq<char>, source: Seq<char>) -> Option<
    Seq<(Seq<u8>, Option<Seq<u8>>)>,
>;

/// Whether the matcher builder accepts this pattern list.
pub uninterp spec fn ac_build_ok(patterns: Seq<Seq<u8>>) -> bool;

/// Model of a list of named capture groups.
pub open spec fn groups_view(gs: Seq<(Vec<u8>, Option<Vec<u8>>)>) -> Seq<
    (Seq<u8>, Option<Seq<u8>>),
> {
    gs.map_values(
        |g: (Vec<u8>, Option<Vec<u8>>)|
            (
                g.0@,
                match g.1 {
                    Some(v) => Some(v@),
                    None => None,
                },
            ),
    )
}

/// Model of a list of pattern byte strings.
pub open spec fn patterns_view(ps: Seq<Vec<u8>>) -> Seq<Seq<u8>> {
    ps.map_values(|p: Vec<u8>| p@)
}

/// Relies on regex::Regex::new, Regex::captures and Regex::capture_names:
/// compiling succeeds as a function of the pattern text alone, and the
/// named-group report of a match is a function of pattern and haystack
/// alone; `capture_names` yields the named groups in the pattern's order.
#[verifier::external_body]
pub(crate) fn regex_match_named(pattern: &str, source: &str) -> (r: Result<
    Option<Vec<(Vec<u8>, Option<Vec<u8>>)>>,
    (),
>)
    ensures
        r is Ok <==> regex_ok(pattern@),
        r matches Ok(opt) ==> match (opt, captures_of(pattern@, source@)) {
            (Some(gs), Some(spec_gs)) => groups_view(gs@) == spec_gs,
            (None, None) => true,
            _ => false,
        },
{
    match regex::Regex::new(pattern) {
        Err(_) => Err(()),
        Ok(re) => match re.captures(source) {
            None => Ok(None),
            Some(caps) => Ok(Some(
                re.capture_names().flatten().map(
                    |n| (n.as_bytes().to_vec(), caps.name(n).map(|m| m.as_str().as_bytes().to_vec())),
                ).collect(),
            )),
        },
    }
}

/// Relies on aho_corasick::AhoCorasick::new: builds a multi-pattern
/// matcher over the given literal patterns; success is a function of the
/// pattern list alone, and a build error is reported as its message.
#[verifier::external_body]
pub(crate) fn ac_new(patterns: &Vec<Vec<u8>>) -> (r: Result<aho_corasick::AhoCorasick, String>)
    ensures
        r is Ok <==> ac_build_ok(patterns_view(patterns@)),
{
    aho_corasick::AhoCorasick::new(patterns).map_err(|e| format!("[AC] {}", e))
}

/// Relies on AhoCorasick::try_stream_replace_all: copies `reader` to
/// `writer`, replacing each non-overlapping, leftmost-first match of a
/// pattern by the replacement at the pattern's index. The guard converts
/// the length mismatch, on which the outside function panics, into the
/// error it belongs to.
#[verifier::external_body]
pub(crate) fn ac_stream_replace<R: std::io::Read, W: std::io::Write>(
    ac: &aho_corasick::AhoCorasick,
    reader: R,
    writer: W,
    replacements: &Vec<Vec<u8>>,
) -> (r: Result<(), String>) {
    if replacements.len() != ac.patterns_len() {
        return Err("one replacement for every pattern is required".to_string());
    }
    ac.try_stream_replace_all(reader, writer, replacements.as_slice()).map_err(|e| e.to_string())
}

} // verus!
