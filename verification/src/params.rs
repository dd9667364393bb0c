//! Finding the typed parameters of a route template such as
//! `/books/<string:name>`, with the `regex` crate.

use vstd::prelude::*;

verus! {

/// What `regex` finds for `pattern` in `text`: `None` where `pattern` does
/// not compile; else, for each match that `Regex::captures_iter` yields, in
/// order, its capture groups in order, each as byte start, byte end and text,
/// or `None` for a group that took no part in the match.
pub uninterp spec fn regex_captures(pattern: Seq<char>, text: Seq<char>) -> Option<
    Seq<Seq<Option<(usize, usize, Seq<char>)>>>,
>;

/// Compiles `pattern` with `regex::Regex::new` and collects the groups of
/// every match of `Regex::captures_iter` on `text`. The contract names the
/// result (`regex_captures`) and states nothing else of it: what a regular
/// expression matches is `regex`'s to define.
#[verifier::external_body]
fn regex_capture_groups(pattern: &str, text: &str) -> (r: Option<
    Vec<Vec<Option<(usize, usize, String)>>>,
>)
    ensures
        r.deep_view() == regex_captures(pattern@, text@),
{
    let re = regex::Regex::new(pattern).ok()?;
    Some(
        re.captures_iter(text).map(
            |caps| caps.iter().map(|m| m.map(|m| (m.start(), m.end(), m.as_str().to_string()))).collect(),
        ).collect(),
    )
}

/// A route parameter `<type:name>`: group 1 is the type, group 2 the name.
pub const PATH_PARAMS_PATTERN: &'static str = r"<\s*([a-z]\w+)\s*:\s*([a-z|A-Z|0-9|_]\w+)\s*>";

/// The parameters of the route template `text`: for each `<type:name>` in
/// it, the whole parameter, its type and its name, each with its byte span.
pub fn path_params(text: &str) -> (r: Option<Vec<Vec<Option<(usize, usize, String)>>>>)
    ensures
        r.deep_view() == regex_captures(PATH_PARAMS_PATTERN@, text@),
{
    regex_capture_groups(PATH_PARAMS_PATTERN, text)
}

} // verus!
