//! Lists and tags in JSON, as table columns hold them.
use crate::tags::TagMap;
use crate::text::strs;
use vstd::prelude::*;
use vstd::string::to_string_from_display_ensures;

verus! {

/// Why a text is not the JSON that was wanted.
#[verifier::external_type_specification]
#[verifier::external_body]
pub struct ExJsonError(serde_json::Error);

/// The list of strings that a text gives as JSON, or, where it gives none, the text that
/// shows why: what `serde_json::from_str::<Vec<String>>` makes of it.
pub uninterp spec fn strings_outcome(text: Seq<char>) -> Result<Seq<Seq<char>>, Seq<char>>;

/// The list of strings that a text gives as JSON, or `None` where it gives none.
pub open spec fn json_strings(text: Seq<char>) -> Option<Seq<Seq<char>>> {
    match strings_outcome(text) {
        Ok(list) => Some(list),
        Err(_) => None,
    }
}

/// A list of strings as JSON: what `serde_json::to_string` returns.
pub uninterp spec fn strings_json(list: Seq<Seq<char>>) -> Seq<char>;

/// The lists by name that a text gives as JSON, or, where it gives none, the text that
/// shows why: what `serde_json::from_str` makes of it for a map from strings to lists of
/// strings.
pub uninterp spec fn tags_outcome(text: Seq<char>) -> Result<
    Map<Seq<char>, Seq<Seq<char>>>,
    Seq<char>,
>;

/// The lists by name that a text gives as JSON, or `None` where it gives none.
pub open spec fn json_tags(text: Seq<char>) -> Option<Map<Seq<char>, Seq<Seq<char>>>> {
    match tags_outcome(text) {
        Ok(tags) => Some(tags),
        Err(_) => None,
    }
}

/// Lists by name as JSON, in the order of the names: what `serde_json::to_string`
/// returns for a `BTreeMap` of them.
pub uninterp spec fn tags_json(tags: Map<Seq<char>, Seq<Seq<char>>>) -> Seq<char>;

/// `serde_json::from_str::<Vec<String>>`: what it returns depends on the text alone, and
/// so does the text that its error shows.
#[verifier::external_body]
pub(crate) fn parse_strings(text: &str) -> (r: Result<Vec<String>, serde_json::Error>)
    ensures
        match r {
            Ok(list) => strings_outcome(text@) == Ok::<_, Seq<char>>(strs(list@)),
            Err(e) => strings_outcome(text@) is Err && forall|shown: String| #[trigger]
                to_string_from_display_ensures::<serde_json::Error>(&e, shown) ==> shown@
                    == strings_outcome(text@)->Err_0,
        },
{
    serde_json::from_str::<Vec<String>>(text)
}

/// `serde_json::to_string` of a list of strings: it never fails, its result depends
/// on the texts alone, and reading it gives the list back.
#[verifier::external_body]
pub(crate) fn write_strings(list: &Vec<String>) -> (r: Result<String, serde_json::Error>)
    ensures
        r is Ok,
        r->Ok_0@ == strings_json(strs(list@)),
        json_strings(r->Ok_0@) == Some(strs(list@)),
{
    serde_json::to_string(list)
}

/// `serde_json::from_str` of a map from strings to lists of strings: what it returns
/// depends on the text alone, and each name occurs once in it; the text that its error
/// shows depends on the text alone.
#[verifier::external_body]
pub(crate) fn parse_tags(text: &str) -> (r: Result<TagMap, serde_json::Error>)
    ensures
        match r {
            Ok(tags) => tags.wf() && tags_outcome(text@) == Ok::<_, Seq<char>>(tags@),
            Err(e) => tags_outcome(text@) is Err && forall|shown: String| #[trigger]
                to_string_from_display_ensures::<serde_json::Error>(&e, shown) ==> shown@
                    == tags_outcome(text@)->Err_0,
        },
{
    let map = serde_json::from_str::<std::collections::BTreeMap<String, Vec<String>>>(text)?;
    Ok(TagMap { entries: map.into_iter().collect() })
}

/// `serde_json::to_string` of a map from strings to lists of strings, each name given
/// once: it never fails, its result depends on what is mapped to what, and reading it
/// gives the map back.
#[verifier::external_body]
pub(crate) fn write_tags(tags: &TagMap) -> (r: Result<String, serde_json::Error>)
    requires
        tags.wf(),
    ensures
        r is Ok,
        r->Ok_0@ == tags_json(tags@),
        json_tags(r->Ok_0@) == Some(tags@),
{
    let map: std::collections::BTreeMap<&String, &Vec<String>> = tags.entries.iter().map(
        |e| (&e.0, &e.1),
    ).collect();
    serde_json::to_string(&map)
}

/// A column reads as a list, or as tags, exactly where the JSON in it does.
pub proof fn law_json_outcomes(
    text: Seq<char>,
    list: Seq<Seq<char>>,
    tags: Map<Seq<char>, Seq<Seq<char>>>,
)
    ensures
        json_strings(text) == Some(list) <==> strings_outcome(text) == Ok::<_, Seq<char>>(list),
        json_strings(text) is None <==> strings_outcome(text) is Err,
        json_tags(text) == Some(tags) <==> tags_outcome(text) == Ok::<_, Seq<char>>(tags),
        json_tags(text) is None <==> tags_outcome(text) is Err,
{
}

} // verus!
