//! Regular expressions that ignore case.
use crate::text::strs;
use vstd::prelude::*;
use vstd::string::to_string_from_display_ensures;

verus! {

/// A compiled regular expression.
#[verifier::external_type_specification]
#[verifier::external_body]
pub struct ExRegex(regex::Regex);

/// Why a pattern did not compile.
#[verifier::external_type_specification]
#[verifier::external_body]
pub struct ExRegexError(regex::Error);

/// The texts in which a compiled expression finds a match: those for which
/// `regex::Regex::is_match` answers true.
pub uninterp spec fn texts_matched(re: regex::Regex) -> Set<Seq<char>>;

/// The texts that a pattern matches when case is ignored, or, where the pattern does not
/// compile, the text that shows why: what `regex::RegexBuilder` makes of it.
pub uninterp spec fn pattern_outcome(pattern: Seq<char>) -> Result<Set<Seq<char>>, Seq<char>>;

/// The texts that a pattern matches when case is ignored, or `None` where the
/// pattern does not compile.
pub open spec fn pattern_texts(pattern: Seq<char>) -> Option<Set<Seq<char>>> {
    match pattern_outcome(pattern) {
        Ok(texts) => Some(texts),
        Err(_) => None,
    }
}

/// `regex::RegexBuilder::new`, `case_insensitive(true)` and `build`: whether a
/// pattern compiles, and what the expression then matches, depends on the
/// pattern alone; so does the text that the error shows where it does not.
#[verifier::external_body]
pub(crate) fn build_ignoring_case(pattern: &str) -> (r: Result<regex::Regex, regex::Error>)
    ensures
        match r {
            Ok(re) => pattern_outcome(pattern@) == Ok::<_, Seq<char>>(texts_matched(re)),
            Err(e) => pattern_outcome(pattern@) is Err && forall|text: String| #[trigger]
                to_string_from_display_ensures::<regex::Error>(&e, text) ==> text@
                    == pattern_outcome(pattern@)->Err_0,
        },
{
    regex::RegexBuilder::new(pattern).case_insensitive(true).build()
}

/// `regex::Regex::is_match`: whether the expression matches anywhere in the text.
#[verifier::external_body]
pub(crate) fn matches_text(re: &regex::Regex, text: &str) -> (b: bool)
    ensures
        b == texts_matched(*re).contains(text@),
{
    re.is_match(text)
}

/// A pattern that does not compile, with the reason.
pub struct PatternError {
    pub pattern: String,
    pub reason: String,
}

/// Whether a pattern compiles.
pub open spec fn compiles(pattern: Seq<char>) -> bool {
    pattern_texts(pattern) is Some
}

/// Whether a text matches a pattern that compiles.
pub open spec fn pattern_matches(pattern: Seq<char>, text: Seq<char>) -> bool {
    pattern_texts(pattern) is Some && pattern_texts(pattern)->0.contains(text)
}

/// Whether an error tells of a pattern that does not compile, and why.
pub open spec fn is_fault(e: PatternError, pattern: Seq<char>) -> bool {
    &&& e.pattern@ == pattern
    &&& pattern_outcome(pattern) == Err::<Set<Seq<char>>, _>(e.reason@)
}

/// Compiles a pattern, ignoring case.
pub fn compile(pattern: &str) -> (r: Result<regex::Regex, PatternError>)
    ensures
        match r {
            Ok(re) => pattern_texts(pattern@) == Some(texts_matched(re)),
            Err(e) => !compiles(pattern@) && is_fault(e, pattern@),
        },
{
    match build_ignoring_case(pattern) {
        Ok(re) => Ok(re),
        Err(e) => Err(PatternError { pattern: pattern.to_owned(), reason: e.to_string() }),
    }
}

/// The first pattern of a list that does not compile, or its length.
pub open spec fn first_bad(patterns: Seq<Seq<char>>) -> int
    decreases patterns.len(),
{
    if patterns.len() == 0 {
        0
    } else if !compiles(patterns[0]) {
        0
    } else {
        1 + first_bad(patterns.drop_first())
    }
}

/// Compiles every pattern of a list; the first that does not compile is the error.
pub fn compile_all(patterns: &Vec<String>) -> (r: Result<Vec<regex::Regex>, PatternError>)
    ensures
        match r {
            Ok(res) => {
                &&& first_bad(strs(patterns@)) == patterns@.len()
                &&& res@.len() == patterns@.len()
                &&& forall|i: int|
                    0 <= i < patterns@.len() ==> pattern_texts(#[trigger] strs(patterns@)[i])
                        == Some(texts_matched(res@[i]))
            },
            Err(e) => {
                let bad = first_bad(strs(patterns@));
                &&& 0 <= bad < patterns@.len()
                &&& !compiles(strs(patterns@)[bad])
                &&& is_fault(e, strs(patterns@)[bad])
            },
        },
{
    let mut out: Vec<regex::Regex> = Vec::new();
    let mut i: usize = 0;
    proof {
        assert(strs(patterns@).skip(0) =~= strs(patterns@));
    }
    while i < patterns.len()
        invariant
            0 <= i <= patterns@.len(),
            out@.len() == i,
            first_bad(strs(patterns@)) == i + first_bad(strs(patterns@).skip(i as int)),
            forall|j: int|
                0 <= j < i ==> pattern_texts(#[trigger] strs(patterns@)[j]) == Some(
                    texts_matched(out@[j]),
                ),
        decreases patterns@.len() - i,
    {
        proof {
            assert(strs(patterns@).skip(i as int).drop_first() =~= strs(patterns@).skip(i + 1));
            assert(strs(patterns@).skip(i as int)[0] == patterns@[i as int]@);
        }
        match compile(patterns[i].as_str()) {
            Ok(re) => out.push(re),
            Err(e) => return Err(e),
        }
        i += 1;
    }
    assert(strs(patterns@).skip(i as int).len() == 0);
    Ok(out)
}

/// Those patterns of a list that compile.
pub open spec fn valid(patterns: Seq<Seq<char>>) -> Seq<Seq<char>> {
    patterns.filter(|p: Seq<char>| compiles(p))
}

/// Compiles those patterns of a list that compile, and leaves out the others.
pub fn compile_valid(patterns: &Vec<String>) -> (r: Vec<regex::Regex>)
    ensures
        r@.len() == valid(strs(patterns@)).len(),
        forall|k: int|
            0 <= k < r@.len() ==> pattern_texts(#[trigger] valid(strs(patterns@))[k]) == Some(
                texts_matched(r@[k]),
            ),
{
    let mut out: Vec<regex::Regex> = Vec::new();
    let ghost all = strs(patterns@);
    let ghost ok = |p: Seq<char>| compiles(p);
    let mut i: usize = 0;
    while i < patterns.len()
        invariant
            0 <= i <= patterns@.len(),
            all == strs(patterns@),
            ok == (|p: Seq<char>| compiles(p)),
            out@.len() == all.take(i as int).filter(ok).len(),
            forall|k: int|
                0 <= k < out@.len() ==> pattern_texts(#[trigger] all.take(i as int).filter(ok)[k])
                    == Some(texts_matched(out@[k])),
        decreases patterns@.len() - i,
    {
        proof {
            assert(all.take(i + 1).drop_last() =~= all.take(i as int));
            assert(all.take(i + 1).last() == patterns@[i as int]@);
            reveal(Seq::filter);
        }
        if let Ok(re) = compile(patterns[i].as_str()) {
            out.push(re);
        }
        i += 1;
    }
    proof {
        assert(all.take(i as int) =~= all);
    }
    out
}

/// A pattern matches a text exactly where it compiles and the text is one of those that the
/// compiled expression matches.
pub proof fn law_pattern_matches(pattern: Seq<char>, text: Seq<char>)
    ensures
        pattern_matches(pattern, text) <==> (pattern_outcome(pattern) matches Ok(texts)
            && texts.contains(text)),
        compiles(pattern) <==> pattern_outcome(pattern) is Ok,
{
}

/// The first bad pattern does not compile, all before it do, and where there is none all do.
pub proof fn law_first_bad(patterns: Seq<Seq<char>>)
    ensures
        0 <= first_bad(patterns) <= patterns.len(),
        forall|i: int|
            0 <= i < first_bad(patterns) ==> pattern_outcome(#[trigger] patterns[i]) is Ok,
        first_bad(patterns) < patterns.len() ==> pattern_outcome(patterns[first_bad(patterns)]) is Err,
    decreases patterns.len(),
{
    if patterns.len() > 0 && compiles(patterns[0]) {
        let rest = patterns.drop_first();
        law_first_bad(rest);
        assert forall|i: int| 0 <= i < first_bad(patterns) implies pattern_outcome(
            #[trigger] patterns[i],
        ) is Ok by {
            if i > 0 {
                assert(patterns[i] == rest[i - 1]);
            }
        }
    }
}

/// What is left of patterns is those that compile.
pub proof fn law_valid(patterns: Seq<Seq<char>>, p: Seq<char>)
    ensures
        valid(patterns).contains(p) <==> patterns.contains(p) && pattern_outcome(p) is Ok,
{
    let good = |p: Seq<char>| compiles(p);
    if valid(patterns).contains(p) {
        patterns.lemma_filter_contains_rev(good, p);
        let k = choose|k: int| 0 <= k < valid(patterns).len() && valid(patterns)[k] == p;
        patterns.lemma_filter_pred(good, k);
    }
    if patterns.contains(p) && compiles(p) {
        let k = choose|k: int| 0 <= k < patterns.len() && patterns[k] == p;
        patterns.lemma_filter_contains(good, k);
    }
}

/// A fault names the pattern that does not compile, and its reason is the one that compiling
/// it gave.
pub proof fn law_fault(e: PatternError, pattern: Seq<char>)
    requires
        is_fault(e, pattern),
    ensures
        e.pattern@ == pattern,
        pattern_outcome(pattern) matches Err(reason) && e.reason@ == reason,
{
}

} // verus!
