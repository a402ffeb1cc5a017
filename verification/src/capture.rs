//! The boundary to the regex crate: compiling the decomposition pattern and
//! extracting the named groups it captures from the current version string.
//! Everything past this boundary works on the plain `(label, text)` pairs it
//! returns.

use vstd::prelude::*;

verus! {

/// Whether the regex crate accepts `pattern` as a valid regular expression,
/// that is, whether `regex::Regex::new` returns `Ok` for it.
pub uninterp spec fn pattern_accepted(pattern: Seq<char>) -> bool;

/// The named parts that matching `pattern` once against `text` captures: a
/// `(group name, captured text)` pair for each named group that participates
/// in the match, in the order the compiled pattern lists its group names,
/// and empty when the pattern does not match. Matching is a function of the
/// pattern and the text alone, so the pairs are too.
pub uninterp spec fn captured_parts(pattern: Seq<char>, text: Seq<char>) -> Seq<
    (Seq<char>, Seq<char>),
>;

/// Relies on `regex::Regex::new`, `Regex::captures`, `Regex::capture_names`
/// and `Captures::name`: compiles `pattern`, matches it once against `text`,
/// and collects each matched named group's captured text; yields nothing
/// exactly when the pattern is invalid.
#[verifier::external_body]
pub(crate) fn extract_parts(pattern: &str, text: &str) -> (r: Option<Vec<(String, String)>>)
    ensures
        r is Some <==> pattern_accepted(pattern@),
        r matches Some(v) ==> v.deep_view() == captured_parts(pattern@, text@),
{
    let re = match regex::Regex::new(pattern) {
        Ok(re) => re,
        Err(_) => return None,
    };
    let mut out: Vec<(String, String)> = Vec::new();
    if let Some(caps) = re.captures(text) {
        for name in re.capture_names().flatten() {
            if let Some(m) = caps.name(name) {
                out.push((name.to_string(), m.as_str().to_string()));
            }
        }
    }
    Some(out)
}

} // verus!
