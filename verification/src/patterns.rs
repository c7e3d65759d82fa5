use vstd::prelude::*;

verus! {

#[verifier::external_type_specification]
#[verifier::external_body]
pub struct ExRegex(regex::Regex);

#[verifier::external_type_specification]
#[verifier::external_body]
pub struct ExRegexError(regex::Error);

/// Whether the regular expression `pattern` compiles: it is valid and within
/// the default size limit of the `regex` crate.
pub uninterp spec fn regex_compiles(pattern: Seq<char>) -> bool;

/// The capture groups of the leftmost-first match of the regular expression
/// `pattern` in `haystack` (group 0 the whole match, `None` for a group that
/// took no part), or `None` where it does not match.
pub uninterp spec fn regex_captures(pattern: Seq<char>, haystack: Seq<char>) -> Option<
    Seq<Option<Seq<char>>>,
>;

/// Full Unicode upper-casing of a string, as `str::to_uppercase` does it.
pub uninterp spec fn to_upper(s: Seq<char>) -> Seq<char>;

/// A compiled regular expression with the text it was compiled from.
pub struct Pattern {
    re: regex::Regex,
    source: String,
}

impl Pattern {
    /// The text the expression was compiled from.
    pub closed spec fn source(&self) -> Seq<char> {
        self.source@
    }
}

/// The texts of the groups of a match.
pub open spec fn group_texts(v: Seq<Option<String>>) -> Seq<Option<Seq<char>>> {
    v.map_values(
        |m: Option<String>|
            match m {
                Some(s) => Some(s@),
                None => None,
            },
    )
}

/// The texts of the groups of a match, if there is one.
pub open spec fn groups_view(g: Option<Vec<Option<String>>>) -> Option<Seq<Option<Seq<char>>>> {
    match g {
        Some(v) => Some(group_texts(v@)),
        None => None,
    }
}

/// `regex::Regex::new`: compiles `pattern`, or fails where the pattern is
/// invalid or too large. The result keeps `pattern` as its source; which
/// patterns fail is named, not stated.
#[verifier::external_body]
pub(crate) fn compile_pattern(pattern: &str) -> (r: Result<Pattern, regex::Error>)
    ensures
        r is Ok <==> regex_compiles(pattern@),
        r matches Ok(p) ==> p.source() == pattern@,
{
    match regex::Regex::new(pattern) {
        Ok(re) => Ok(Pattern { re, source: pattern.to_string() }),
        Err(e) => Err(e),
    }
}

/// `regex::Regex::captures`: the groups of the first match of `p` in
/// `haystack`, each as its text. What they are is named after the source of
/// `p` and the haystack, not stated.
#[verifier::external_body]
pub(crate) fn captures(p: &Pattern, haystack: &str) -> (r: Option<Vec<Option<String>>>)
    ensures
        groups_view(r) == regex_captures(p.source(), haystack@),
{
    match p.re.captures(haystack) {
        Some(c) => {
            let mut groups = Vec::new();
            for m in c.iter() {
                groups.push(match m { Some(m) => Some(m.as_str().to_string()), None => None });
            }
            Some(groups)
        },
        None => None,
    }
}

/// `str::to_uppercase`: the upper-case form of `s`, named, not stated.
#[verifier::external_body]
pub(crate) fn uppercase(s: &str) -> (r: String)
    ensures
        r@ == to_upper(s@),
{
    s.to_uppercase()
}

} // verus!
