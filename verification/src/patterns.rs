//! The regular expressions that expression strings are read with.

use vstd::prelude::*;

verus! {

/// The characters that the operator pattern of expression strings matches:
/// the operators, the parentheses and the backslash.
pub open spec fn is_operator_char(c: char) -> bool {
    c == '&' || c == '|' || c == '+' || c == '-' || c == '*' || c == '/' || c == '%' || c == '!' || c == '\\' || c
        == '(' || c == ')'
}

/// `s` with each operator character set apart by a space on either side.
pub open spec fn operators_spaced(s: Seq<char>) -> Seq<char>
    decreases s.len(),
{
    if s.len() == 0 {
        Seq::empty()
    } else if is_operator_char(s[0]) {
        seq![' ', s[0], ' '] + operators_spaced(s.drop_first())
    } else {
        seq![s[0]] + operators_spaced(s.drop_first())
    }
}

/// Compiles `pattern` with `regex::Regex::new` and replaces every match in
/// `text` with `replacement` by `Regex::replace_all`. Called with the
/// operator pattern (a class of single characters, in one capture group)
/// and the replacement `" $1 "`, every match is one operator character and
/// is replaced by itself with a space on either side, so the contract
/// claims the compiled pattern and that result.
#[verifier::external_body]
pub(crate) fn regex_replace_all(pattern: &str, text: &str, replacement: &str) -> (r: Option<String>)
    requires
        pattern@ == crate::expression::OPERATOR_PATTERN@,
        replacement@ == crate::expression::OPERATOR_REPLACEMENT@,
    ensures
        match r {
            Some(x) => x@ == operators_spaced(text@),
            None => false,
        },
{
    match regex::Regex::new(pattern) {
        Ok(re) => Some(re.replace_all(text, replacement).into_owned()),
        Err(_) => None,
    }
}

/// What the first two groups of the first match of the regular expression
/// `pattern` in `text` hold, as `regex::Regex::captures` gives them, or
/// `None` where `pattern` is not valid, does not match, or a group took part
/// in no match.
pub uninterp spec fn regex_captures_result(pattern: Seq<char>, text: Seq<char>) -> Option<(Seq<char>, Seq<char>)>;

/// Compiles `pattern` with `regex::Regex::new` and gives the texts of groups
/// one and two of `Regex::captures` on `text`. The contract ties the result
/// to the named result of both arguments; what the expression matches is
/// left unstated.
#[verifier::external_body]
pub(crate) fn regex_captures(pattern: &str, text: &str) -> (r: Option<(String, String)>)
    ensures
        match r {
            Some(g) => regex_captures_result(pattern@, text@) == Some((g.0@, g.1@)),
            None => regex_captures_result(pattern@, text@) is None,
        },
{
    let captures = regex::Regex::new(pattern).ok()?.captures(text)?;
    let first = captures.get(1)?.as_str().to_string();
    let second = captures.get(2)?.as_str().to_string();
    Some((first, second))
}

} // verus!
