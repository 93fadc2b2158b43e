//! Compiled match patterns, backed by `fancy_regex`.
use vstd::prelude::*;
use fancy_regex::Regex;

verus! {

#[verifier::external_type_specification]
#[verifier::external_body]
pub struct ExRegex(Regex);

#[verifier::external_type_specification]
#[verifier::external_body]
pub struct ExRegexError(fancy_regex::Error);

/// Whether `fancy_regex::Regex::new` accepts `pattern`.
pub uninterp spec fn regex_compiles(pattern: Seq<char>) -> bool;

/// What `fancy_regex::Regex::captures` reports when the regex compiled from
/// `pattern` searches `text`: `None` for a run-time error, `Some(None)` when
/// there is no match, and otherwise the text of every group of the first
/// match, group 0 being the whole match and `None` a group that took no part.
pub uninterp spec fn regex_search(pattern: Seq<char>, text: Seq<char>) -> Option<
    Option<Seq<Option<Seq<char>>>>,
>;

/// A regular expression together with the source text it was compiled from.
/// Only `compile_pattern` builds one, so the two always agree.
pub struct CompiledPattern {
    source: String,
    regex: Regex,
}

impl View for CompiledPattern {
    type V = Seq<char>;

    closed spec fn view(&self) -> Seq<char> {
        self.source@
    }
}

/// The texts of the groups of one match.
pub open spec fn groups_view(g: Vec<Option<String>>) -> Seq<Option<Seq<char>>> {
    g@.map_values(|o: Option<String>| crate::text::opt_chars(o))
}

/// Calls `fancy_regex::Regex::new` on `source`; on success the compiled
/// regex is kept together with `source`. The contract claims that success
/// depends on the source text alone.
#[verifier::external_body]
pub(crate) fn compile_pattern(source: String) -> (r: Result<CompiledPattern, fancy_regex::Error>)
    ensures
        r is Ok <==> regex_compiles(source@),
        r matches Ok(p) ==> p@ == source@,
{
    match Regex::new(&source) {
        Ok(regex) => Ok(CompiledPattern { source, regex }),
        Err(e) => Err(e),
    }
}

/// Calls `fancy_regex::Regex::captures` on `text` and copies out the text of
/// each group of the first match. The contract claims that the outcome is a
/// function of the pattern's source and the text alone.
#[verifier::external_body]
pub(crate) fn search_pattern(p: &CompiledPattern, text: &str) -> (r: Result<
    Option<Vec<Option<String>>>,
    fancy_regex::Error,
>)
    ensures
        match r {
            Ok(Some(g)) => regex_search(p@, text@) == Some(Some(groups_view(g))),
            Ok(None) => regex_search(p@, text@) == Some(None::<Seq<Option<Seq<char>>>>),
            Err(_) => regex_search(p@, text@) is None,
        },
{
    match p.regex.captures(text) {
        Ok(Some(caps)) => Ok(Some(caps.iter().map(|m| m.map(|m| m.as_str().to_string())).collect())),
        Ok(None) => Ok(None),
        Err(e) => Err(e),
    }
}

} // verus!
