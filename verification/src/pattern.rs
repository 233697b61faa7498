//! Regular expressions and Unicode case, as functions of text.
use vstd::prelude::*;

verus! {

/// The groups of one match: the whole match first, `None` for a group that took
/// no part in it.
pub type Groups = Seq<Option<Seq<char>>>;

/// The groups of every match of a regular expression, from left to right, as
/// `regex::Regex::captures_iter` gives them; `None` where the expression does
/// not compile.
pub uninterp spec fn captured(pattern: Seq<char>, s: Seq<char>) -> Option<Seq<Groups>>;

/// The views of one match.
pub open spec fn group_views(groups: Seq<Option<String>>) -> Groups {
    groups.map_values(
        |g: Option<String>|
            match g {
                Some(s) => Some(s@),
                None => None,
            },
    )
}

/// The views of some matches.
pub open spec fn match_views(matches: Seq<Vec<Option<String>>>) -> Seq<Groups> {
    matches.map_values(|m: Vec<Option<String>>| group_views(m@))
}

/// Calls `regex::Regex::captures_iter` and takes every group out as text. The
/// matches are a function of the expression and the text.
#[verifier::external_body]
pub(crate) fn captures(pattern: &str, s: &str) -> (out: Option<Vec<Vec<Option<String>>>>)
    ensures
        match (out, captured(pattern@, s@)) {
            (Some(m), Some(v)) => match_views(m@) == v,
            (None, None) => true,
            _ => false,
        },
{
    let re = regex::Regex::new(pattern).ok()?;
    let own = |g: Option<regex::Match>| g.map(|m| m.as_str().to_owned());
    Some(re.captures_iter(s).map(|c| c.iter().map(own).collect()).collect())
}

/// The text with every match of a regular expression replaced, as
/// `regex::Regex::replace_all` does it; `None` where the expression does not
/// compile.
pub uninterp spec fn replaced(pattern: Seq<char>, s: Seq<char>, by: Seq<char>) -> Option<Seq<char>>;

/// Calls `regex::Regex::replace_all`. The result is a function of the
/// expression, the text and the replacement, in which `$1` stands for a group.
#[verifier::external_body]
pub(crate) fn replace_all(pattern: &str, s: &str, by: &str) -> (out: Option<String>)
    ensures
        match (out, replaced(pattern@, s@, by@)) {
            (Some(t), Some(v)) => t@ == v,
            (None, None) => true,
            _ => false,
        },
{
    let re = regex::Regex::new(pattern).ok()?;
    Some(re.replace_all(s, by).into_owned())
}

/// What `str::to_lowercase` makes of a text.
pub uninterp spec fn lowercase(s: Seq<char>) -> Seq<char>;

/// Calls `str::to_lowercase`, which goes by Unicode; the result is a function
/// of the text.
#[verifier::external_body]
pub(crate) fn to_lowercase(s: &str) -> (out: String)
    ensures
        out@ == lowercase(s@),
{
    s.to_lowercase()
}

/// The text of group `n` in a match, empty where the group took no part.
pub open spec fn group_of(groups: Groups, n: int) -> Seq<char> {
    if n < groups.len() {
        match groups[n] {
            Some(s) => s,
            None => seq![],
        }
    } else {
        seq![]
    }
}

/// The text of group `n` in a match.
pub fn group(groups: &Vec<Option<String>>, n: usize) -> (out: String)
    ensures
        out@ == group_of(group_views(groups@), n as int),
{
    if n < groups.len() {
        match &groups[n] {
            Some(s) => s.clone(),
            None => {
                let none: String = String::new();
                proof {
                    assert(none@ =~= seq![]);
                }
                none
            },
        }
    } else {
        let none: String = String::new();
        proof {
            assert(none@ =~= seq![]);
        }
        none
    }
}

} // verus!
