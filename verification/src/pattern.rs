//! The regular-expression searches the recognizers run, through the `regex`
//! crate. What a pattern matches is the crate's business: each search result
//! is named here as a function of the pattern and the haystack, together with
//! the shape the crate documents for every match (byte offsets into the
//! haystack, `start <= end`, both on UTF-8 character boundaries).

use vstd::prelude::*;
use vstd::utf8::encode_utf8;
use regex::Regex;
use crate::text::is_char_range;

verus! {

/// Successive non-overlapping matches of `pattern` in `haystack`
/// (`Regex::new(pattern)` then `find_iter(haystack)`), as byte ranges;
/// `None` when the pattern does not compile.
pub uninterp spec fn regex_find_spans(pattern: Seq<char>, haystack: Seq<char>) -> Option<
    Seq<(usize, usize)>,
>;

/// For each successive match of `pattern` in `haystack`
/// (`captures_iter`), the byte range of its named `group`, if that group
/// took part in the match; `None` when the pattern does not compile.
pub uninterp spec fn regex_group_spans(
    pattern: Seq<char>,
    haystack: Seq<char>,
    group: Seq<char>,
) -> Option<Seq<Option<(usize, usize)>>>;

/// The characters that have a meaning in a pattern
/// (`regex_syntax::is_meta_character`).
pub open spec fn is_meta_char(c: char) -> bool {
    ||| c == '\\' || c == '.' || c == '+' || c == '*' || c == '?' || c == '(' || c == ')'
    ||| c == '|' || c == '[' || c == ']' || c == '{' || c == '}' || c == '^' || c == '$'
    ||| c == '#' || c == '&' || c == '-' || c == '~'
}

/// `regex::escape(literal)`: `literal` with a backslash put before each of
/// its meta characters, a pattern matching exactly `literal`.
pub open spec fn regex_escaped(literal: Seq<char>) -> Seq<char>
    decreases literal.len(),
{
    if literal.len() == 0 {
        Seq::empty()
    } else {
        let c = literal.last();
        regex_escaped(literal.drop_last()) + if is_meta_char(c) {
            seq!['\\', c]
        } else {
            seq![c]
        }
    }
}

/// Matches one after the other, none overlapping the next: each ends at or
/// before the start of every later one.
pub open spec fn spans_in_order(v: Seq<(usize, usize)>) -> bool {
    forall|i: int, j: int| 0 <= i < j < v.len() ==> (#[trigger] v[i]).1 <= (#[trigger] v[j]).0
}

/// A match range as `regex` documents it: start before end, inside the
/// haystack, both ends on character boundaries.
pub open spec fn is_match_range(haystack: Seq<char>, span: (usize, usize)) -> bool {
    is_char_range(encode_utf8(haystack), span.0 as int, span.1 as int)
}

/// `Regex::new(pattern)` followed by `find_iter(haystack)`, each match taken
/// as its `(start, end)` byte offsets. The contract names the result and
/// states what the crate documents of it: each match range lies on character
/// boundaries with start before end, and the matches are successive and
/// non-overlapping. Which text matches is not stated.
#[verifier::external_body]
pub(crate) fn find_spans(pattern: &str, haystack: &str) -> (r: Option<Vec<(usize, usize)>>)
    ensures
        regex_find_spans(pattern@, haystack@) == (match r {
            Some(v) => Some(v@),
            None => None,
        }),
        r matches Some(v) ==> forall|i: int|
            0 <= i < v@.len() ==> is_match_range(haystack@, #[trigger] v@[i]),
        r matches Some(v) ==> spans_in_order(v@),
{
    match Regex::new(pattern) {
        Ok(re) => Some(re.find_iter(haystack).map(|m| (m.start(), m.end())).collect()),
        Err(_) => None,
    }
}

/// `Regex::new(pattern)` followed by `captures_iter(haystack)`, each match
/// taken as the `(start, end)` byte offsets of its group named `group`. The
/// contract names the result and states the documented shape of each group
/// range; which text matches is not stated.
#[verifier::external_body]
pub(crate) fn group_spans(pattern: &str, haystack: &str, group: &str) -> (r: Option<
    Vec<Option<(usize, usize)>>,
>)
    ensures
        regex_group_spans(pattern@, haystack@, group@) == (match r {
            Some(v) => Some(v@),
            None => None,
        }),
        r matches Some(v) ==> forall|i: int|
            0 <= i < v@.len() ==> (#[trigger] v@[i] matches Some(sp) ==> is_match_range(
                haystack@,
                sp,
            )),
{
    match Regex::new(pattern) {
        Ok(re) => Some(
            re.captures_iter(haystack).map(|c| c.name(group).map(|m| (m.start(), m.end()))).collect(),
        ),
        Err(_) => None,
    }
}

/// `regex::escape`: each character of `literal`, with a backslash before
/// each meta character (`regex_syntax::escape_into`).
#[verifier::external_body]
pub(crate) fn escape(literal: &str) -> (r: String)
    ensures
        r@ == regex_escaped(literal@),
{
    regex::escape(literal)
}

} // verus!
