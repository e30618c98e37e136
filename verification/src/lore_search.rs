//! Searching mail: a full-text search proposes candidates, patterns and dates decide.
use crate::dates::{instant_of, law_window, window, Window};
use crate::database::DatabaseManager;
use crate::email::LoreEmailInfo;
use crate::grep::limited;
use crate::lists::{distinct, lemma_filter_distinct, lemma_firsts, NameSet};
use crate::lore::{mail_of_row, mails_of_rows, read_mail, LoreRow};
use crate::patterns::{
    compile, compile_all, compiles, first_bad, is_fault, law_first_bad, matches_text,
    pattern_matches, pattern_outcome, pattern_texts, texts_matched, PatternError,
};
use crate::text::{
    chars_of, join, joined, law_joined_lists, lemma_strs_empty, lemma_strs_push, letter_or_digit,
    opt_text, same, strs,
};
use vstd::prelude::*;

verus! {

broadcast use {lemma_strs_push, lemma_strs_empty};

/// How many results are wanted where no limit is given.
pub const DEFAULT_TARGET: usize = 10000;

/// How many candidates are asked for at most before a search gives up.
pub const MAX_CANDIDATES: usize = 1_000_000;

/// How many candidates are asked for in a search by several fields without a limit.
pub const UNLIMITED_CANDIDATES: usize = 100_000;

/// Whether a character separates words for the full-text search.
pub open spec fn separates(c: char) -> bool {
    !letter_or_digit(c) && c != ' '
}

/// The pieces of a pattern between separators.
pub open spec fn fragments(s: Seq<char>) -> Seq<Seq<char>>
    decreases s.len(),
{
    if s.len() == 0 {
        seq![Seq::empty()]
    } else {
        let rest = fragments(s.drop_last());
        if separates(s.last()) {
            rest.push(Seq::empty())
        } else {
            rest.drop_last().push(rest.last().push(s.last()))
        }
    }
}

/// What the full-text search is asked for a pattern: its pieces that are not empty, with
/// spaces between them.
pub open spec fn fts_text(pattern: Seq<char>) -> Seq<char> {
    joined(fragments(pattern).filter(|p: Seq<char>| p.len() > 0), " "@)
}

/// What the full-text search is asked for a pattern.
pub fn fts_pattern(pattern: &str) -> (r: String)
    ensures
        r@ == fts_text(pattern@),
{
    let cs = chars_of(pattern);
    let ghost some = |p: Seq<char>| p.len() > 0;
    let mut words: Vec<String> = Vec::new();
    let mut word: String = String::new();
    let mut i: usize = 0;
    proof {
        reveal(Seq::filter);
        assert(cs@.take(0) =~= Seq::empty());
        assert(fragments(cs@.take(0)).drop_last() =~= Seq::empty());
        assert(word@ =~= Seq::<char>::empty());
    }
    while i < cs.len()
        invariant
            i <= cs@.len(),
            cs@ == pattern@,
            some == (|p: Seq<char>| p.len() > 0),
            strs(words@) == fragments(cs@.take(i as int)).drop_last().filter(some),
            word@ == fragments(cs@.take(i as int)).last(),
            fragments(cs@.take(i as int)).len() > 0,
        decreases cs@.len() - i,
    {
        let ghost before = fragments(cs@.take(i as int));
        let ghost now = fragments(cs@.take(i + 1));
        proof {
            reveal(Seq::filter);
            assert(cs@.take(i + 1).drop_last() =~= cs@.take(i as int));
            assert(cs@.take(i + 1).last() == cs@[i as int]);
        }
        let c: char = cs[i];
        if !c.is_alphanumeric() && c != ' ' {
            proof {
                assert(now == before.push(Seq::empty()));
                assert(now.drop_last() =~= before);
                assert(before.drop_last().push(before.last()) =~= before);
            }
            if !word.as_str().is_empty() {
                words.push(word);
            }
            word = String::new();
            assert(word@ =~= Seq::<char>::empty());
        } else {
            word.push(c);
            proof {
                assert(now.drop_last() =~= before.drop_last());
            }
        }
        i += 1;
    }
    proof {
        let all = fragments(pattern@);
        reveal(Seq::filter);
        assert(cs@.take(i as int) =~= cs@);
        assert(all.drop_last().push(all.last()) =~= all);
    }
    if !word.as_str().is_empty() {
        words.push(word);
    }
    join(&words, " ")
}

/// The value of a field of a row, where the field can be searched.
pub open spec fn field_value(row: LoreRow, field: Seq<char>) -> Option<Seq<char>> {
    if field == "from"@ {
        Some(row.from@)
    } else if field == "subject"@ {
        Some(row.subject@)
    } else if field == "body"@ {
        Some(row.body@)
    } else if field == "recipients"@ {
        Some(row.recipients@)
    } else if field == "symbols"@ {
        Some(row.symbols@)
    } else {
        None
    }
}

/// Whether a row matches a pattern in a field, with its date in a window.
pub open spec fn fits(row: LoreRow, field: Seq<char>, pattern: Seq<char>, w: Window) -> bool {
    &&& field_value(row, field) is Some
    &&& pattern_matches(pattern, field_value(row, field)->0)
    &&& w.holds_date(row.date@)
}

fn field_of<'a>(row: &'a LoreRow, field: &str) -> (r: Option<&'a str>)
    ensures
        opt_text(r) == field_value(*row, field@),
{
    if same(field, "from") {
        Some(row.from.as_str())
    } else if same(field, "subject") {
        Some(row.subject.as_str())
    } else if same(field, "body") {
        Some(row.body.as_str())
    } else if same(field, "recipients") {
        Some(row.recipients.as_str())
    } else if same(field, "symbols") {
        Some(row.symbols.as_str())
    } else {
        None
    }
}

/// A search in one field. It asks for more and more candidates until enough of them match,
/// or no more do.
pub struct LoreSearch {
    field: String,
    pattern: String,
    regex: regex::Regex,
    window: Window,
    limit: usize,
    fts_limit: usize,
    previous_count: usize,
    emails: Vec<LoreEmailInfo>,
}

/// How many results a search is after.
pub open spec fn target(limit: nat) -> nat {
    if limit > 0 {
        limit
    } else {
        DEFAULT_TARGET as nat
    }
}

/// How many candidates a search asks for first.
pub open spec fn first_fts_limit(limit: nat) -> nat {
    if limit > 0 {
        limit * 10
    } else {
        10000
    }
}

/// Whether a search is over after a round: it found enough, or no more than the round
/// before, or asked for as many candidates as it may.
pub open spec fn search_over(limit: nat, fts_limit: nat, previous: nat, found: nat) -> bool {
    found >= target(limit) || found == previous || fts_limit >= MAX_CANDIDATES
}

impl LoreSearch {
    /// The field searched.
    pub closed spec fn field(self) -> Seq<char> {
        self.field@
    }

    /// The pattern searched for.
    pub closed spec fn pattern(self) -> Seq<char> {
        self.pattern@
    }

    /// The window of dates.
    pub closed spec fn dates(self) -> Window {
        self.window
    }

    /// The limit on results; zero is none.
    pub closed spec fn max(self) -> nat {
        self.limit as nat
    }

    /// How many candidates the search asks for.
    pub closed spec fn asked(self) -> nat {
        self.fts_limit as nat
    }

    /// How many results the round before gave.
    pub closed spec fn before(self) -> nat {
        self.previous_count as nat
    }

    /// The results of the last round.
    pub closed spec fn results(self) -> Seq<LoreEmailInfo> {
        self.emails@
    }

    /// What holds of every search.
    pub closed spec fn wf(self) -> bool {
        pattern_texts(self.pattern@) == Some(texts_matched(self.regex))
    }

    /// Whether two are rounds of one search.
    pub open spec fn same_search(self, other: LoreSearch) -> bool {
        &&& self.field() == other.field()
        &&& self.pattern() == other.pattern()
        &&& self.dates() == other.dates()
        &&& self.max() == other.max()
    }

    /// How many candidates to ask for.
    pub fn fts_limit(&self) -> (r: usize)
        ensures
            r == self.asked(),
    {
        self.fts_limit
    }

    /// What to ask the full-text search for.
    pub fn fts_query(&self) -> (r: String)
        ensures
            r@ == fts_text(self.pattern()),
    {
        fts_pattern(self.pattern.as_str())
    }

    fn row_fits(&self, row: &LoreRow) -> (r: bool)
        requires
            self.wf(),
        ensures
            r == fits(*row, self.field@, self.pattern@, self.window),
    {
        match field_of(row, self.field.as_str()) {
            None => false,
            Some(value) => matches_text(&self.regex, value) && self.window.admits(
                row.date.as_str(),
            ),
        }
    }

    /// Takes the candidates of a round, as rows. The results are those of them that fit, up
    /// to the limit. Returns whether the search is over; where it is not, the next round
    /// asks for five times as many candidates.
    pub fn on_candidates(&mut self, rows: Vec<LoreRow>) -> (r: bool)
        requires
            old(self).wf(),
        ensures
            final(self).wf(),
            final(self).same_search(*old(self)),
            mails_of_rows(
                limited(
                    rows@.filter(
                        |row: LoreRow|
                            fits(row, old(self).field(), old(self).pattern(), old(self).dates()),
                    ),
                    old(self).max(),
                ).0,
                final(self).results(),
            ),
            forall|i: int|
                0 <= i < final(self).results().len() ==> ({
                    &&& instant_of((#[trigger] final(self).results()[i]).date@) matches Some(at)
                    &&& old(self).dates().since matches Some(s) ==> s.0 < at.0 || (s.0 == at.0 && s.1
                        <= at.1)
                    &&& old(self).dates().until matches Some(u) ==> at.0 < u.0 || (at.0 == u.0 && at.1
                        <= u.1)
                }),
            r == search_over(
                old(self).max(),
                old(self).asked(),
                old(self).before(),
                final(self).results().len(),
            ),
            r ==> final(self).asked() == old(self).asked() && final(self).before() == old(self).before(),
            !r ==> final(self).asked() == old(self).asked() * 5 && final(self).before()
                == final(self).results().len(),
    {
        let ghost all = rows@;
        let ghost keep = |row: LoreRow|
            fits(row, old(self).field(), old(self).pattern(), old(self).dates());
        let limit: usize = self.limit;
        let mut mails: Vec<LoreEmailInfo> = Vec::new();
        let ghost mut i: int = 0;
        proof {
            reveal(Seq::filter);
            assert(all.take(0).filter(keep) =~= Seq::empty());
        }
        for row in it: rows.into_iter()
            invariant
                it.seq() == all,
                i == it.index(),
                *self == *old(self),
                self.wf(),
                limit == self.limit,
                keep == (|row: LoreRow|
                    fits(row, old(self).field(), old(self).pattern(), old(self).dates())),
                mails_of_rows(limited(all.take(i).filter(keep), limit as nat).0, mails@),
        {
            let ghost kept = all.take(i).filter(keep);
            let ghost now = all.take(i + 1).filter(keep);
            let ghost had = mails@;
            proof {
                reveal(Seq::filter);
                assert(all.take(i + 1).drop_last() =~= all.take(i));
                assert(all.take(i + 1).last() == row);
                i = i + 1;
            }
            if self.row_fits(&row) {
                assert(now == kept.push(row));
                if limit > 0 && mails.len() >= limit {
                    proof {
                        assert(now.take(limit as int) =~= kept.take(limit as int));
                        assert(kept.take(kept.len() as int) =~= kept);
                    }
                } else {
                    mails.push(read_mail(row));
                    proof {
                        assert forall|j: int| 0 <= j < now.len() implies mail_of_row(
                            #[trigger] now[j],
                            mails@[j],
                        ) by {
                            if j < kept.len() {
                                assert(mail_of_row(kept[j], had[j]));
                            }
                        }
                    }
                }
            }
        }
        proof {
            assert(all.take(i) =~= all);
        }
        let found: usize = mails.len();
        proof {
            let kept = limited(all.filter(keep), limit as nat).0;
            assert forall|j: int| 0 <= j < mails@.len() implies ({
                &&& instant_of((#[trigger] mails@[j]).date@) matches Some(at)
                &&& old(self).dates().since matches Some(s) ==> s.0 < at.0 || (s.0 == at.0 && s.1
                    <= at.1)
                &&& old(self).dates().until matches Some(u) ==> at.0 < u.0 || (at.0 == u.0 && at.1
                    <= u.1)
            }) by {
                assert(mail_of_row(kept[j], mails@[j]));
                assert(kept[j] == all.filter(keep)[j]);
                all.lemma_filter_pred(keep, j);
            }
        }
        self.emails = mails;
        let wanted: usize = if limit > 0 {
            limit
        } else {
            DEFAULT_TARGET
        };
        if found >= wanted || found == self.previous_count || self.fts_limit >= MAX_CANDIDATES {
            return true;
        }
        self.previous_count = found;
        self.fts_limit = self.fts_limit * 5;
        false
    }

    /// The results of the last round.
    pub fn into_results(self) -> (r: Vec<LoreEmailInfo>)
        ensures
            r@ == self.results(),
    {
        self.emails
    }
}

/// How many candidates a search asks for after some rounds.
pub open spec fn fts_limit_after(start: nat, rounds: nat) -> nat
    decreases rounds,
{
    if rounds == 0 {
        start
    } else {
        5 * fts_limit_after(start, (rounds - 1) as nat)
    }
}

/// A search ends: after eight rounds that went on it asks for as many candidates as it
/// may, whatever its limit is.
pub proof fn law_search_ends(limit: nat)
    ensures
        fts_limit_after(first_fts_limit(limit), 8) >= MAX_CANDIDATES,
{
    let start = first_fts_limit(limit);
    reveal_with_fuel(fts_limit_after, 9);
    assert(start >= 10);
}

impl DatabaseManager {
    /// Starts a search for mails that match a pattern in a field, dated between two dates.
    pub fn search_lore_emails(
        &self,
        field: &str,
        pattern: &str,
        limit: usize,
        since_date: Option<&str>,
        until_date: Option<&str>,
    ) -> (r: Result<LoreSearch, PatternError>)
        requires
            limit * 10 <= usize::MAX,
        ensures
            match r {
                Ok(search) => {
                    &&& compiles(pattern@)
                    &&& search.wf()
                    &&& search.field() == field@
                    &&& search.pattern() == pattern@
                    &&& search.dates() == window(opt_text(since_date), opt_text(until_date))
                    &&& search.dates().since == (match since_date {
                        Some(t) => instant_of(t@),
                        None => None,
                    })
                    &&& search.dates().until == (match until_date {
                        Some(t) => instant_of(t@),
                        None => None,
                    })
                    &&& search.max() == limit
                    &&& search.asked() == first_fts_limit(limit as nat)
                    &&& search.before() == 0
                    &&& search.results().len() == 0
                },
                Err(e) => !compiles(pattern@) && is_fault(e, pattern@),
            },
    {
        let dates = Window::new(since_date, until_date);
        let regex = match compile(pattern) {
            Ok(re) => re,
            Err(e) => return Err(e),
        };
        let fts_limit: usize = if limit > 0 {
            limit * 10
        } else {
            10000
        };
        Ok(
            LoreSearch {
                field: field.to_owned(),
                pattern: pattern.to_owned(),
                regex,
                window: dates,
                limit,
                fts_limit,
                previous_count: 0,
                emails: Vec::new(),
            },
        )
    }
}

/// The patterns for one field, and the candidates that the full-text search gave for
/// them, each a message id and the value of the field.
pub struct FieldCandidates {
    pub patterns: Vec<String>,
    pub candidates: Vec<(String, String)>,
}

/// Whether one of some patterns matches a value.
pub open spec fn matches_any(patterns: Seq<Seq<char>>, value: Seq<char>) -> bool {
    exists|k: int| 0 <= k < patterns.len() && pattern_matches(#[trigger] patterns[k], value)
}

/// Whether a message is among the candidates of a field with a value that matches.
pub open spec fn field_finds(f: FieldCandidates, id: Seq<char>) -> bool {
    exists|i: int|
        0 <= i < f.candidates@.len() && (#[trigger] f.candidates@[i]).0@ == id && matches_any(
            strs(f.patterns@),
            f.candidates@[i].1@,
        )
}

/// Whether a field has patterns at all.
pub open spec fn is_asked(f: FieldCandidates) -> bool {
    f.patterns@.len() > 0
}

/// Whether a message is found in every field that has patterns, of which there is one.
pub open spec fn found_in_all(fields: Seq<FieldCandidates>, id: Seq<char>) -> bool {
    &&& exists|i: int| 0 <= i < fields.len() && is_asked(#[trigger] fields[i])
    &&& forall|i: int|
        0 <= i < fields.len() && is_asked(#[trigger] fields[i]) ==> field_finds(fields[i], id)
}

/// The first field with a pattern that does not compile, or the number of fields.
pub open spec fn first_bad_field(fields: Seq<FieldCandidates>) -> int
    decreases fields.len(),
{
    if fields.len() == 0 {
        0
    } else {
        let ps = strs(fields[0].patterns@);
        if first_bad(ps) < ps.len() {
            0
        } else {
            1 + first_bad_field(fields.drop_first())
        }
    }
}

fn any_matches(res: &Vec<regex::Regex>, value: &str, Ghost(patterns): Ghost<Seq<Seq<char>>>) -> (r:
    bool)
    requires
        res@.len() == patterns.len(),
        forall|k: int|
            0 <= k < patterns.len() ==> pattern_texts(#[trigger] patterns[k]) == Some(
                texts_matched(res@[k]),
            ),
    ensures
        r == matches_any(patterns, value@),
{
    let mut k: usize = 0;
    while k < res.len()
        invariant
            k <= res@.len(),
            res@.len() == patterns.len(),
            forall|k: int|
                0 <= k < patterns.len() ==> pattern_texts(#[trigger] patterns[k]) == Some(
                    texts_matched(res@[k]),
                ),
            forall|j: int| 0 <= j < k ==> !pattern_matches(#[trigger] patterns[j], value@),
        decreases res@.len() - k,
    {
        assert(pattern_texts(patterns[k as int]) == Some(texts_matched(res@[k as int])));
        if matches_text(&res[k], value) {
            assert(pattern_matches(patterns[k as int], value@));
            return true;
        }
        k += 1;
    }
    false
}

fn find_in_field(f: &FieldCandidates) -> (r: Result<Vec<String>, PatternError>)
    ensures
        match r {
            Ok(found) => {
                &&& first_bad(strs(f.patterns@)) == f.patterns@.len()
                &&& strs(found@).no_duplicates()
                &&& forall|id: Seq<char>| #[trigger]
                    strs(found@).contains(id) <==> field_finds(*f, id)
            },
            Err(e) => {
                let bad = first_bad(strs(f.patterns@));
                &&& 0 <= bad < f.patterns@.len()
                &&& is_fault(e, strs(f.patterns@)[bad])
            },
        },
{
    let ghost ps = strs(f.patterns@);
    let res = match compile_all(&f.patterns) {
        Ok(res) => res,
        Err(e) => return Err(e),
    };
    let mut out: Vec<String> = Vec::new();
    let mut i: usize = 0;
    while i < f.candidates.len()
        invariant
            i <= f.candidates@.len(),
            ps == strs(f.patterns@),
            res@.len() == ps.len(),
            forall|k: int|
                0 <= k < ps.len() ==> pattern_texts(#[trigger] ps[k]) == Some(
                    texts_matched(res@[k]),
                ),
            forall|id: Seq<char>| #[trigger]
                strs(out@).contains(id) <==> exists|j: int|
                    0 <= j < i && (#[trigger] f.candidates@[j]).0@ == id && matches_any(
                        ps,
                        f.candidates@[j].1@,
                    ),
        decreases f.candidates@.len() - i,
    {
        let ghost had = strs(out@);
        let fits = any_matches(&res, f.candidates[i].1.as_str(), Ghost(ps));
        if fits {
            out.push(f.candidates[i].0.clone());
            assert(strs(out@)[had.len() as int] == f.candidates@[i as int].0@);
        }
        proof {
            let now = strs(out@);
            assert forall|id: Seq<char>| #[trigger] now.contains(id) <==> exists|j: int|
                0 <= j < i + 1 && (#[trigger] f.candidates@[j]).0@ == id && matches_any(
                    ps,
                    f.candidates@[j].1@,
                ) by {
                if now.contains(id) {
                    let k = choose|k: int| 0 <= k < now.len() && now[k] == id;
                    if k < had.len() {
                        assert(had[k] == id);
                        assert(had.contains(id));
                        let j = choose|j: int|
                            0 <= j < i && (#[trigger] f.candidates@[j]).0@ == id && matches_any(
                                ps,
                                f.candidates@[j].1@,
                            );
                        assert(f.candidates@[j].0@ == id);
                    } else {
                        assert(f.candidates@[i as int].0@ == id);
                    }
                }
                if had.contains(id) {
                    let k = choose|k: int| 0 <= k < had.len() && had[k] == id;
                    assert(now[k] == id);
                }
            }
        }
        i += 1;
    }
    proof {
        lemma_firsts(strs(out@));
    }
    Ok(distinct(out))
}

fn keep_common(ids: Vec<String>, others: &Vec<String>) -> (r: Vec<String>)
    requires
        strs(ids@).no_duplicates(),
    ensures
        strs(r@).no_duplicates(),
        forall|id: Seq<char>| #[trigger]
            strs(r@).contains(id) <==> strs(ids@).contains(id) && strs(others@).contains(id),
{
    let ghost all = strs(ids@);
    let ghost there = |id: Seq<char>| strs(others@).contains(id);
    let mut set: NameSet = NameSet::new();
    let mut k: usize = 0;
    while k < others.len()
        invariant
            k <= others@.len(),
            forall|x: Seq<char>| #[trigger]
                set@.contains(x) <==> strs(others@).take(k as int).contains(x),
        decreases others@.len() - k,
    {
        let ghost had = strs(others@).take(k as int);
        let ghost was = set@;
        set.insert(others[k].clone());
        proof {
            let now = strs(others@).take(k + 1);
            assert(now =~= had.push(others@[k as int]@));
            assert forall|x: Seq<char>| #[trigger] set@.contains(x) <==> now.contains(x) by {
                assert(was.contains(x) <==> had.contains(x));
                if had.contains(x) {
                    let m = choose|m: int| 0 <= m < had.len() && had[m] == x;
                    assert(now[m] == x);
                }
                if x == others@[k as int]@ {
                    assert(now[k as int] == x);
                }
            }
        }
        k += 1;
    }
    proof {
        assert(strs(others@).take(k as int) =~= strs(others@));
    }
    let mut out: Vec<String> = Vec::new();
    let mut i: usize = 0;
    proof {
        reveal(Seq::filter);
    }
    while i < ids.len()
        invariant
            i <= ids@.len(),
            all == strs(ids@),
            there == (|id: Seq<char>| strs(others@).contains(id)),
            forall|x: Seq<char>| #[trigger] set@.contains(x) <==> strs(others@).contains(x),
            strs(out@) == all.take(i as int).filter(there),
        decreases ids@.len() - i,
    {
        proof {
            reveal(Seq::filter);
            assert(all.take(i + 1).drop_last() =~= all.take(i as int));
            assert(all.take(i + 1).last() == ids@[i as int]@);
        }
        if set.contains(ids[i].as_str()) {
            out.push(ids[i].clone());
        }
        i += 1;
    }
    proof {
        assert(all.take(i as int) =~= all);
        lemma_filter_distinct(all, there);
    }
    out
}

/// The patterns that are given for a field, in order.
pub open spec fn patterns_for(pairs: Seq<(String, String)>, field: Seq<char>) -> Seq<Seq<char>>
    decreases pairs.len(),
{
    if pairs.len() == 0 {
        Seq::empty()
    } else {
        let rest = patterns_for(pairs.drop_last(), field);
        if pairs.last().0@ == field {
            rest.push(pairs.last().1@)
        } else {
            rest
        }
    }
}

/// What is sought in each field of mail.
pub struct FieldPatterns {
    pub from: Vec<String>,
    pub subject: Vec<String>,
    pub body: Vec<String>,
    pub recipients: Vec<String>,
}

fn gather(pairs: &Vec<(String, String)>, field: &str) -> (r: Vec<String>)
    ensures
        strs(r@) == patterns_for(pairs@, field@),
{
    let mut out: Vec<String> = Vec::new();
    let mut i: usize = 0;
    while i < pairs.len()
        invariant
            i <= pairs@.len(),
            strs(out@) == patterns_for(pairs@.take(i as int), field@),
        decreases pairs@.len() - i,
    {
        proof {
            assert(pairs@.take(i + 1).drop_last() =~= pairs@.take(i as int));
        }
        if same(pairs[i].0.as_str(), field) {
            out.push(pairs[i].1.clone());
        }
        i += 1;
    }
    proof {
        assert(pairs@.take(i as int) =~= pairs@);
    }
    out
}

/// Whether a mail's date lies in a window.
pub open spec fn dated_in(mail: LoreEmailInfo, w: Window) -> bool {
    w.holds_date(mail.date@)
}

impl DatabaseManager {
    /// What the full-text search is asked for the patterns of a field.
    pub fn field_fts_query(&self, patterns: &Vec<String>) -> (r: String)
        ensures
            r@ == fts_text(joined(strs(patterns@), " "@)),
    {
        fts_pattern(join(patterns, " ").as_str())
    }

    /// How many candidates the full-text search is asked for.
    pub fn field_fts_limit(&self, search_limit: usize) -> (r: usize)
        ensures
            r == (if search_limit > 0 {
                search_limit
            } else {
                UNLIMITED_CANDIDATES
            }),
            search_limit == 0 ==> r == 100000,
    {
        if search_limit > 0 {
            search_limit
        } else {
            UNLIMITED_CANDIDATES
        }
    }

    /// The messages found in all fields that have patterns, each once. In a field one of
    /// its patterns has to match. Without any pattern nothing is found.
    pub fn query_lore_by_fields_intersection(&self, fields: &Vec<FieldCandidates>) -> (r: Result<
        Vec<String>,
        PatternError,
    >)
        ensures
            match r {
                Ok(found) => {
                    &&& first_bad_field(fields@) == fields@.len()
                    &&& strs(found@).no_duplicates()
                    &&& forall|id: Seq<char>| #[trigger]
                        strs(found@).contains(id) <==> found_in_all(fields@, id)
                },
                Err(e) => {
                    let f = first_bad_field(fields@);
                    &&& 0 <= f < fields@.len()
                    &&& is_fault(
                        e,
                        strs(fields@[f].patterns@)[first_bad(strs(fields@[f].patterns@))],
                    )
                },
            },
    {
        let mut found: Option<Vec<String>> = None;
        let mut i: usize = 0;
        proof {
            assert(fields@.skip(0) =~= fields@);
        }
        while i < fields.len()
            invariant
                i <= fields@.len(),
                first_bad_field(fields@) == i + first_bad_field(fields@.skip(i as int)),
                match found {
                    None => forall|j: int| 0 <= j < i ==> !is_asked(#[trigger] fields@[j]),
                    Some(ids) => {
                        &&& strs(ids@).no_duplicates()
                        &&& exists|j: int| 0 <= j < i && is_asked(#[trigger] fields@[j])
                        &&& forall|id: Seq<char>| #[trigger]
                            strs(ids@).contains(id) <==> forall|j: int|
                                0 <= j < i && is_asked(#[trigger] fields@[j]) ==> field_finds(
                                    fields@[j],
                                    id,
                                )
                    },
                },
            decreases fields@.len() - i,
        {
            let f = &fields[i];
            proof {
                let rest = fields@.skip(i as int);
                assert(rest[0] == *f);
                assert(rest.drop_first() =~= fields@.skip(i + 1));
            }
            if f.patterns.len() > 0 {
                let here = match find_in_field(f) {
                    Ok(here) => here,
                    Err(e) => return Err(e),
                };
                assert(is_asked(fields@[i as int]));
                match found.take() {
                    None => {
                        found = Some(here);
                    },
                    Some(ids) => {
                        let ghost had = strs(ids@);
                        let both = keep_common(ids, &here);
                        proof {
                            assert forall|id: Seq<char>| #[trigger]
                                strs(both@).contains(id) <==> forall|j: int|
                                    0 <= j < i + 1 && is_asked(#[trigger] fields@[j])
                                        ==> field_finds(fields@[j], id) by {
                                assert(had.contains(id) <==> forall|j: int|
                                    0 <= j < i && is_asked(#[trigger] fields@[j]) ==> field_finds(
                                        fields@[j],
                                        id,
                                    ));
                                assert(strs(here@).contains(id) <==> field_finds(*f, id));
                            }
                        }
                        found = Some(both);
                    },
                }
            } else {
                assert(strs(f.patterns@).len() == 0);
            }
            i += 1;
        }
        proof {
            assert(fields@.skip(i as int).len() == 0);
        }
        match found {
            Some(ids) => {
                proof {
                    assert forall|id: Seq<char>| #[trigger]
                        strs(ids@).contains(id) <==> found_in_all(fields@, id) by {}
                }
                Ok(ids)
            },
            None => {
                let none: Vec<String> = Vec::new();
                proof {
                    assert forall|id: Seq<char>| #[trigger]
                        strs(none@).contains(id) <==> found_in_all(fields@, id) by {
                        if found_in_all(fields@, id) {
                            let j = choose|j: int|
                                0 <= j < fields@.len() && is_asked(#[trigger] fields@[j]);
                            assert(!is_asked(fields@[j]));
                        }
                    }
                }
                Ok(none)
            },
        }
    }

    /// What is sought in each field, from a list of fields and patterns; fields that cannot
    /// be searched together are passed over.
    pub fn search_lore_emails_multi_field(&self, field_patterns: &Vec<(String, String)>) -> (r:
        FieldPatterns)
        ensures
            strs(r.from@) == patterns_for(field_patterns@, "from"@),
            strs(r.subject@) == patterns_for(field_patterns@, "subject"@),
            strs(r.body@) == patterns_for(field_patterns@, "body"@),
            strs(r.recipients@) == patterns_for(field_patterns@, "recipients"@),
    {
        FieldPatterns {
            from: gather(field_patterns, "from"),
            subject: gather(field_patterns, "subject"),
            body: gather(field_patterns, "body"),
            recipients: gather(field_patterns, "recipients"),
        }
    }

    /// The messages to fetch, of those found: the first, up to the limit.
    pub fn messages_to_fetch(&self, found: Vec<String>, limit: usize) -> (r: Vec<String>)
        ensures
            strs(r@) == limited(strs(found@), limit as nat).0,
    {
        if limit == 0 || found.len() <= limit {
            return found;
        }
        let mut out: Vec<String> = Vec::new();
        let mut i: usize = 0;
        while i < limit
            invariant
                i <= limit < found@.len(),
                strs(out@) == strs(found@).take(i as int),
            decreases limit - i,
        {
            out.push(found[i].clone());
            proof {
                assert(strs(found@).take(i + 1) =~= strs(found@).take(i as int).push(
                    strs(found@)[i as int],
                ));
            }
            i += 1;
        }
        out
    }

    /// The mails fetched that are dated between two dates; a mail without a date is not.
    pub fn filter_fetched(
        &self,
        fetched: Vec<LoreEmailInfo>,
        since_date: Option<&str>,
        until_date: Option<&str>,
    ) -> (r: Vec<LoreEmailInfo>)
        ensures
            r@ == fetched@.filter(
                |mail: LoreEmailInfo|
                    dated_in(mail, window(opt_text(since_date), opt_text(until_date))),
            ),
    {
        let w = Window::new(since_date, until_date);
        let ghost all = fetched@;
        let ghost keep = |mail: LoreEmailInfo|
            dated_in(mail, window(opt_text(since_date), opt_text(until_date)));
        let mut kept: Vec<LoreEmailInfo> = Vec::new();
        let ghost mut i: int = 0;
        proof {
            reveal(Seq::filter);
            assert(all.take(0).filter(keep) =~= Seq::empty());
        }
        for mail in it: fetched.into_iter()
            invariant
                it.seq() == all,
                i == it.index(),
                w == window(opt_text(since_date), opt_text(until_date)),
                keep == (|mail: LoreEmailInfo|
                    dated_in(mail, window(opt_text(since_date), opt_text(until_date)))),
                kept@ == all.take(i).filter(keep),
        {
            proof {
                reveal(Seq::filter);
                assert(all.take(i + 1).drop_last() =~= all.take(i));
                assert(all.take(i + 1).last() == mail);
                i = i + 1;
            }
            if w.admits(mail.date.as_str()) {
                kept.push(mail);
            }
        }
        proof {
            assert(all.take(i) =~= all);
        }
        kept
    }
}

/// Within a field patterns are alternatives: with more of them no less is found.
pub proof fn law_patterns_of_a_field_are_alternatives(
    some: Seq<Seq<char>>,
    more: Seq<Seq<char>>,
    value: Seq<char>,
)
    ensures
        matches_any(some + more, value) <==> matches_any(some, value) || matches_any(more, value),
{
    let all = some + more;
    if matches_any(all, value) {
        let k = choose|k: int| 0 <= k < all.len() && pattern_matches(#[trigger] all[k], value);
        if k < some.len() {
            assert(pattern_matches(some[k], value));
        } else {
            assert(pattern_matches(more[k - some.len()], value));
        }
    }
    if matches_any(some, value) {
        let k = choose|k: int| 0 <= k < some.len() && pattern_matches(#[trigger] some[k], value);
        assert(pattern_matches(all[k], value));
    }
    if matches_any(more, value) {
        let k = choose|k: int| 0 <= k < more.len() && pattern_matches(#[trigger] more[k], value);
        assert(pattern_matches(all[some.len() + k], value));
    }
}

/// Fields are joined by and: with one more field that has patterns, no more is found.
pub proof fn law_fields_are_all_required(
    fields: Seq<FieldCandidates>,
    field: FieldCandidates,
    id: Seq<char>,
)
    requires
        is_asked(field),
    ensures
        found_in_all(fields.push(field), id) ==> field_finds(field, id),
        (exists|i: int| 0 <= i < fields.len() && is_asked(#[trigger] fields[i])) ==> (found_in_all(
            fields.push(field),
            id,
        ) <==> found_in_all(fields, id) && field_finds(field, id)),
{
    let all = fields.push(field);
    assert(all[fields.len() as int] == field);
    if found_in_all(all, id) {
        assert forall|i: int| 0 <= i < fields.len() && is_asked(#[trigger] fields[i]) implies field_finds(
            fields[i],
            id,
        ) by {
            assert(all[i] == fields[i]);
        }
    }
    if found_in_all(fields, id) && field_finds(field, id) {
        assert(is_asked(all[fields.len() as int]));
        assert forall|i: int| 0 <= i < all.len() && is_asked(#[trigger] all[i]) implies field_finds(
            all[i],
            id,
        ) by {
            if i < fields.len() {
                assert(all[i] == fields[i]);
            }
        }
    }
}

proof fn lemma_joined_plain(parts: Seq<Seq<char>>)
    requires
        forall|i: int, j: int|
            0 <= i < parts.len() && 0 <= j < parts[i].len() ==> !separates(#[trigger] parts[i][j]),
    ensures
        forall|j: int| 0 <= j < joined(parts, " "@).len() ==> !separates(#[trigger] joined(parts, " "@)[j]),
    decreases parts.len(),
{
    reveal_strlit(" ");
    if parts.len() > 1 {
        let rest = parts.drop_last();
        assert forall|i: int, j: int| 0 <= i < rest.len() && 0 <= j < rest[i].len() implies !separates(
            #[trigger] rest[i][j],
        ) by {
            assert(rest[i] == parts[i]);
            assert(!separates(parts[i][j]));
        }
        lemma_joined_plain(rest);
        let few = joined(rest, " "@);
        let all = joined(parts, " "@);
        let last = parts.last();
        assert forall|j: int| 0 <= j < all.len() implies !separates(#[trigger] all[j]) by {
            if j < few.len() {
                assert(all[j] == few[j]);
            } else if j == few.len() {
                assert(all[j] == ' ');
            } else {
                assert(all[j] == last[j - few.len() - 1]);
                assert(!separates(parts[parts.len() - 1][j - few.len() - 1]));
            }
        }
    } else if parts.len() == 1 {
        assert forall|j: int| 0 <= j < joined(parts, " "@).len() implies !separates(
            #[trigger] joined(parts, " "@)[j],
        ) by {
            assert(!separates(parts[0][j]));
        }
    }
}

proof fn lemma_fragments_plain(s: Seq<char>)
    ensures
        fragments(s).len() > 0,
        forall|i: int, j: int|
            0 <= i < fragments(s).len() && 0 <= j < fragments(s)[i].len() ==> !separates(
                #[trigger] fragments(s)[i][j],
            ),
    decreases s.len(),
{
    if s.len() > 0 {
        let before = s.drop_last();
        lemma_fragments_plain(before);
        let few = fragments(before);
        let all = fragments(s);
        assert forall|i: int, j: int| 0 <= i < all.len() && 0 <= j < all[i].len() implies !separates(
            #[trigger] all[i][j],
        ) by {
            if i < few.len() - 1 {
                assert(all[i] == few[i]);
                assert(!separates(few[i][j]));
            } else if !separates(s.last()) {
                if j < few.last().len() {
                    assert(all[i][j] == few[few.len() - 1][j]);
                }
            } else if i < few.len() {
                assert(all[i] == few[i]);
                assert(!separates(few[i][j]));
            }
        }
    }
}

/// What the full-text search is asked holds letters, digits and spaces only.
pub proof fn law_fts_text_is_plain(pattern: Seq<char>)
    ensures
        forall|j: int|
            0 <= j < fts_text(pattern).len() ==> letter_or_digit(#[trigger] fts_text(pattern)[j])
                || fts_text(pattern)[j] == ' ',
{
    let all = fragments(pattern);
    let some = |p: Seq<char>| p.len() > 0;
    let kept = all.filter(some);
    lemma_fragments_plain(pattern);
    assert forall|i: int, j: int| 0 <= i < kept.len() && 0 <= j < kept[i].len() implies !separates(
        #[trigger] kept[i][j],
    ) by {
        assert(kept.contains(kept[i]));
        all.lemma_filter_contains_rev(some, kept[i]);
        let k = choose|k: int| 0 <= k < all.len() && all[k] == kept[i];
        assert(!separates(all[k][j]));
    }
    lemma_joined_plain(kept);
    assert forall|j: int| 0 <= j < fts_text(pattern).len() implies letter_or_digit(
        #[trigger] fts_text(pattern)[j],
    ) || fts_text(pattern)[j] == ' ' by {
        assert(!separates(joined(kept, " "@)[j]));
    }
}

/// Every result of a round is a candidate that fits, and results are never more than the
/// limit.
pub proof fn law_results_fit(
    rows: Seq<LoreRow>,
    field: Seq<char>,
    pattern: Seq<char>,
    w: Window,
    limit: nat,
    i: int,
)
    requires
        0 <= i < limited(rows.filter(|row: LoreRow| fits(row, field, pattern, w)), limit).0.len(),
    ensures
        ({
            let results = limited(
                rows.filter(|row: LoreRow| fits(row, field, pattern, w)),
                limit,
            ).0;
            &&& rows.contains(results[i])
            &&& fits(results[i], field, pattern, w)
            &&& limit > 0 ==> results.len() <= limit
        }),
{
    let keep = |row: LoreRow| fits(row, field, pattern, w);
    let all = rows.filter(keep);
    rows.lemma_filter_pred(keep, i);
    assert(all.contains(all[i]));
    rows.lemma_filter_contains_rev(keep, all[i]);
}

/// Whether a row fits a search between two dates that are given as texts, by its columns: the
/// pattern compiles and matches the column that the field names, its date names an instant,
/// and that lies between those that the two dates name, as far as they are given and name
/// any.
pub proof fn law_fits(
    row: LoreRow,
    field: Seq<char>,
    pattern: Seq<char>,
    since: Option<Seq<char>>,
    until: Option<Seq<char>>,
)
    ensures
        fits(row, field, pattern, window(since, until)) <==> ({
            &&& pattern_outcome(pattern) matches Ok(texts)
            &&& {
                ||| field == "from"@ && texts.contains(row.from@)
                ||| field == "subject"@ && texts.contains(row.subject@)
                ||| field == "body"@ && texts.contains(row.body@)
                ||| field == "recipients"@ && texts.contains(row.recipients@)
                ||| field == "symbols"@ && texts.contains(row.symbols@)
            }
            &&& instant_of(row.date@) matches Some(at)
            &&& match since {
                Some(t) => match instant_of(t) {
                    Some(s) => s.0 < at.0 || (s.0 == at.0 && s.1 <= at.1),
                    None => true,
                },
                None => true,
            }
            &&& match until {
                Some(t) => match instant_of(t) {
                    Some(u) => at.0 < u.0 || (at.0 == u.0 && at.1 <= u.1),
                    None => true,
                },
                None => true,
            }
        }),
{
    law_window(since, until, row.date@);
    reveal_strlit("from");
    reveal_strlit("subject");
    reveal_strlit("body");
    reveal_strlit("recipients");
    reveal_strlit("symbols");
    assert("from"@[0] != "body"@[0]);
    assert("subject"@[1] != "symbols"@[1]);
}

/// Every result of a round has a date that names an instant, not before the one that the
/// first of the two dates names and not behind the one that the second does, as far as they
/// are given and name any. It is a candidate in whose column that the field names the pattern
/// matches. The results are no more than the limit.
pub proof fn law_results_are_wanted(
    rows: Seq<LoreRow>,
    mails: Seq<LoreEmailInfo>,
    field: Seq<char>,
    pattern: Seq<char>,
    since: Option<Seq<char>>,
    until: Option<Seq<char>>,
    limit: nat,
    i: int,
)
    requires
        mails_of_rows(
            limited(
                rows.filter(|row: LoreRow| fits(row, field, pattern, window(since, until))),
                limit,
            ).0,
            mails,
        ),
        0 <= i < mails.len(),
    ensures
        limit > 0 ==> mails.len() <= limit,
        ({
            &&& instant_of(mails[i].date@) matches Some(at)
            &&& match since {
                Some(t) => match instant_of(t) {
                    Some(s) => s.0 < at.0 || (s.0 == at.0 && s.1 <= at.1),
                    None => true,
                },
                None => true,
            }
            &&& match until {
                Some(t) => match instant_of(t) {
                    Some(u) => at.0 < u.0 || (at.0 == u.0 && at.1 <= u.1),
                    None => true,
                },
                None => true,
            }
        }),
        exists|j: int|
            0 <= j < rows.len() && (#[trigger] rows[j]).message_id@ == mails[i].message_id@
                && rows[j].git_commit_sha@ == mails[i].git_commit_sha@ && rows[j].date@
                == mails[i].date@ && rows[j].body@ == mails[i].body@ && ({
                &&& pattern_outcome(pattern) matches Ok(texts)
                &&& {
                    ||| field == "from"@ && texts.contains(rows[j].from@)
                    ||| field == "subject"@ && texts.contains(rows[j].subject@)
                    ||| field == "body"@ && texts.contains(rows[j].body@)
                    ||| field == "recipients"@ && texts.contains(rows[j].recipients@)
                    ||| field == "symbols"@ && texts.contains(rows[j].symbols@)
                }
            }),
{
    let keep = |row: LoreRow| fits(row, field, pattern, window(since, until));
    let all = rows.filter(keep);
    let kept = limited(all, limit).0;
    assert(mail_of_row(kept[i], mails[i]));
    assert(kept[i] == all[i]);
    rows.lemma_filter_pred(keep, i);
    assert(all.contains(all[i]));
    rows.lemma_filter_contains_rev(keep, all[i]);
    let j = choose|j: int| 0 <= j < rows.len() && rows[j] == all[i];
    law_fits(rows[j], field, pattern, since, until);
    assert(rows[j].message_id@ == mails[i].message_id@);
}

/// Every candidate in whose column that the field names the pattern matches, and whose date
/// names an instant between those that the two dates name, as far as they are given and name
/// any, is among the results of the round, unless these are as many as the limit.
pub proof fn law_wanted_are_results(
    rows: Seq<LoreRow>,
    mails: Seq<LoreEmailInfo>,
    field: Seq<char>,
    pattern: Seq<char>,
    since: Option<Seq<char>>,
    until: Option<Seq<char>>,
    limit: nat,
    j: int,
)
    requires
        mails_of_rows(
            limited(
                rows.filter(|row: LoreRow| fits(row, field, pattern, window(since, until))),
                limit,
            ).0,
            mails,
        ),
        0 <= j < rows.len(),
        ({
            &&& pattern_outcome(pattern) matches Ok(texts)
            &&& {
                    ||| field == "from"@ && texts.contains(rows[j].from@)
                    ||| field == "subject"@ && texts.contains(rows[j].subject@)
                    ||| field == "body"@ && texts.contains(rows[j].body@)
                    ||| field == "recipients"@ && texts.contains(rows[j].recipients@)
                    ||| field == "symbols"@ && texts.contains(rows[j].symbols@)
            }
            &&& instant_of(rows[j].date@) matches Some(at)
            &&& match since {
                Some(t) => match instant_of(t) {
                    Some(s) => s.0 < at.0 || (s.0 == at.0 && s.1 <= at.1),
                    None => true,
                },
                None => true,
            }
            &&& match until {
                Some(t) => match instant_of(t) {
                    Some(u) => at.0 < u.0 || (at.0 == u.0 && at.1 <= u.1),
                    None => true,
                },
                None => true,
            }
        }),
    ensures
        (limit > 0 && mails.len() == limit) || exists|i: int|
            0 <= i < mails.len() && (#[trigger] mails[i]).message_id@ == rows[j].message_id@
                && mails[i].git_commit_sha@ == rows[j].git_commit_sha@ && mails[i].from@
                == rows[j].from@ && mails[i].subject@ == rows[j].subject@ && mails[i].date@
                == rows[j].date@ && mails[i].body@ == rows[j].body@ && mails[i].recipients@
                == rows[j].recipients@,
{
    let keep = |row: LoreRow| fits(row, field, pattern, window(since, until));
    let all = rows.filter(keep);
    let kept = limited(all, limit).0;
    law_fits(rows[j], field, pattern, since, until);
    rows.lemma_filter_contains(keep, j);
    let i = choose|i: int| 0 <= i < all.len() && all[i] == rows[j];
    if limit == 0 || mails.len() < limit {
        assert(kept == all);
        assert(mail_of_row(kept[i], mails[i]));
    }
}

/// Where a search stands after a round, in numbers: it is over when it has found as many as
/// its limit, or 10000 without one, when it has found as many as the round before, or when it
/// has asked for a million candidates. It first asks for ten times its limit, or 10000.
pub proof fn law_search_numbers(limit: nat, fts_limit: nat, previous: nat, found: nat)
    ensures
        limit > 0 ==> first_fts_limit(limit) == 10 * limit,
        limit == 0 ==> first_fts_limit(limit) == 10000,
        search_over(limit, fts_limit, previous, found) <==> (limit > 0 && found >= limit) || (limit
            == 0 && found >= 10000) || found == previous || fts_limit >= 1000000,
{
}

/// A message is found by several fields exactly where one of them has patterns, and for each
/// that has, the message is among its candidates with a value that one of its patterns
/// matches.
pub proof fn law_found_in_all(fields: Seq<FieldCandidates>, id: Seq<char>)
    ensures
        found_in_all(fields, id) <==> (exists|i: int|
            0 <= i < fields.len() && (#[trigger] fields[i]).patterns@.len() > 0) && (forall|i: int|
            0 <= i < fields.len() && (#[trigger] fields[i]).patterns@.len() > 0 ==> exists|
                c: int,
                k: int,
            |
                0 <= c < fields[i].candidates@.len() && 0 <= k < fields[i].patterns@.len() && (
                #[trigger] fields[i].candidates@[c]).0@ == id && (pattern_outcome(
                    (#[trigger] fields[i].patterns@[k])@,
                ) matches Ok(texts) && texts.contains(fields[i].candidates@[c].1@))),
{
    assert forall|i: int| 0 <= i < fields.len() implies (field_finds(#[trigger] fields[i], id) <==> exists|
        c: int,
        k: int,
    |
        0 <= c < fields[i].candidates@.len() && 0 <= k < fields[i].patterns@.len() && (
        #[trigger] fields[i].candidates@[c]).0@ == id && (pattern_outcome(
            (#[trigger] fields[i].patterns@[k])@,
        ) matches Ok(texts) && texts.contains(fields[i].candidates@[c].1@))) by {
        let f = fields[i];
        if field_finds(f, id) {
            let c = choose|c: int|
                0 <= c < f.candidates@.len() && (#[trigger] f.candidates@[c]).0@ == id && matches_any(
                    strs(f.patterns@),
                    f.candidates@[c].1@,
                );
            let k = choose|k: int|
                0 <= k < strs(f.patterns@).len() && pattern_matches(
                    #[trigger] strs(f.patterns@)[k],
                    f.candidates@[c].1@,
                );
            assert(f.candidates@[c].0@ == id && strs(f.patterns@)[k] == f.patterns@[k]@);
        }
        if exists|c: int, k: int|
            0 <= c < f.candidates@.len() && 0 <= k < f.patterns@.len() && (
            #[trigger] f.candidates@[c]).0@ == id && (pattern_outcome(
                (#[trigger] f.patterns@[k])@,
            ) matches Ok(texts) && texts.contains(f.candidates@[c].1@)) {
            let (c, k) = choose|c: int, k: int|
                0 <= c < f.candidates@.len() && 0 <= k < f.patterns@.len() && (
                #[trigger] f.candidates@[c]).0@ == id && (pattern_outcome(
                    (#[trigger] f.patterns@[k])@,
                ) matches Ok(texts) && texts.contains(f.candidates@[c].1@));
            assert(pattern_matches(strs(f.patterns@)[k], f.candidates@[c].1@));
            assert(matches_any(strs(f.patterns@), f.candidates@[c].1@));
        }
    }
}

/// The first bad field holds a pattern that does not compile, and all patterns of the fields
/// before it compile.
pub proof fn law_first_bad_field(fields: Seq<FieldCandidates>)
    ensures
        0 <= first_bad_field(fields) <= fields.len(),
        forall|i: int, k: int|
            0 <= i < first_bad_field(fields) && 0 <= k < fields[i].patterns@.len() ==> pattern_outcome(
                (#[trigger] fields[i].patterns@[k])@,
            ) is Ok,
        first_bad_field(fields) < fields.len() ==> exists|k: int|
            0 <= k < fields[first_bad_field(fields)].patterns@.len() && pattern_outcome(
                (#[trigger] fields[first_bad_field(fields)].patterns@[k])@,
            ) is Err,
    decreases fields.len(),
{
    if fields.len() > 0 {
        let ps = strs(fields[0].patterns@);
        let rest = fields.drop_first();
        law_first_bad(ps);
        if first_bad(ps) < ps.len() {
            assert(ps[first_bad(ps)] == fields[0].patterns@[first_bad(ps)]@);
        } else {
            law_first_bad_field(rest);
            assert forall|i: int, k: int|
                0 <= i < first_bad_field(fields) && 0 <= k < fields[i].patterns@.len() implies pattern_outcome(
                (#[trigger] fields[i].patterns@[k])@,
            ) is Ok by {
                if i == 0 {
                    assert(ps[k] == fields[0].patterns@[k]@);
                } else {
                    assert(fields[i] == rest[i - 1]);
                    assert(pattern_outcome(rest[i - 1].patterns@[k]@) is Ok);
                }
            }
            if first_bad_field(fields) < fields.len() {
                let b = first_bad_field(rest);
                let k = choose|k: int|
                    0 <= k < rest[b].patterns@.len() && pattern_outcome(
                        (#[trigger] rest[b].patterns@[k])@,
                    ) is Err;
                assert(fields[b + 1] == rest[b]);
                assert(pattern_outcome(fields[first_bad_field(fields)].patterns@[k]@) is Err);
            }
        }
    }
}

/// The patterns for a field are those that are given with its name, in their order.
pub proof fn law_patterns_for(pairs: Seq<(String, String)>, field: Seq<char>)
    ensures
        patterns_for(pairs, field) == pairs.filter(
            |p: (String, String)| p.0@ == field,
        ).map_values(|p: (String, String)| p.1@),
    decreases pairs.len(),
{
    reveal(Seq::filter);
    if pairs.len() > 0 {
        law_patterns_for(pairs.drop_last(), field);
    }
    assert(patterns_for(pairs, field) =~= pairs.filter(
        |p: (String, String)| p.0@ == field,
    ).map_values(|p: (String, String)| p.1@));
}

/// A mail that was fetched is kept exactly where its date names an instant between those that
/// the two dates name, as far as they are given and name any.
pub proof fn law_fetched_are_dated(
    mail: LoreEmailInfo,
    since: Option<Seq<char>>,
    until: Option<Seq<char>>,
)
    ensures
        dated_in(mail, window(since, until)) <==> ({
            &&& instant_of(mail.date@) matches Some(at)
            &&& match since {
                Some(t) => match instant_of(t) {
                    Some(s) => s.0 < at.0 || (s.0 == at.0 && s.1 <= at.1),
                    None => true,
                },
                None => true,
            }
            &&& match until {
                Some(t) => match instant_of(t) {
                    Some(u) => at.0 < u.0 || (at.0 == u.0 && at.1 <= u.1),
                    None => true,
                },
                None => true,
            }
        }),
{
    law_window(since, until, mail.date@);
}

proof fn lemma_fragments_one(s: Seq<char>)
    requires
        forall|i: int| 0 <= i < s.len() ==> !separates(#[trigger] s[i]),
    ensures
        fragments(s) == seq![s],
    decreases s.len(),
{
    if s.len() > 0 {
        assert forall|i: int| 0 <= i < s.drop_last().len() implies !separates(
            #[trigger] s.drop_last()[i],
        ) by {
            assert(!separates(s[i]));
        }
        lemma_fragments_one(s.drop_last());
        assert(!separates(s[s.len() - 1]));
        assert(fragments(s)[0] =~= s);
    } else {
        assert(s =~= Seq::<char>::empty());
    }
    assert(fragments(s) =~= seq![s]);
}

proof fn lemma_fragments_split(a: Seq<char>, c: char, b: Seq<char>)
    requires
        separates(c),
    ensures
        fragments(a.push(c) + b) == fragments(a) + fragments(b),
        fragments(b).len() > 0,
    decreases b.len(),
{
    let s = a.push(c) + b;
    if b.len() == 0 {
        assert(s.drop_last() =~= a);
        assert(fragments(s) =~= fragments(a) + fragments(b));
    } else {
        assert(s.drop_last() =~= a.push(c) + b.drop_last());
        lemma_fragments_split(a, c, b.drop_last());
        assert(fragments(s) =~= fragments(a) + fragments(b));
    }
}

proof fn lemma_filter_lists(a: Seq<Seq<char>>, b: Seq<Seq<char>>)
    ensures
        (a + b).filter(|p: Seq<char>| p.len() > 0) == a.filter(|p: Seq<char>| p.len() > 0) + b.filter(
            |p: Seq<char>| p.len() > 0,
        ),
    decreases b.len(),
{
    reveal(Seq::filter);
    let some = |p: Seq<char>| p.len() > 0;
    if b.len() == 0 {
        assert(a + b =~= a);
        assert(a.filter(some) + b.filter(some) =~= a.filter(some));
    } else {
        lemma_filter_lists(a, b.drop_last());
        assert((a + b).drop_last() =~= a + b.drop_last());
        assert((a + b).filter(some) =~= a.filter(some) + b.filter(some));
    }
}

/// What the full-text search is asked for a pattern, from parts of it: letters, digits and
/// spaces stand as they are; any other character parts what stands before it from what stands
/// behind it, and a space takes its place where there is something on both sides.
pub proof fn law_fts_text(a: Seq<char>, c: char, b: Seq<char>)
    ensures
        (forall|i: int| 0 <= i < a.len() ==> letter_or_digit(#[trigger] a[i]) || a[i] == ' ')
            ==> fts_text(a) == a,
        !letter_or_digit(c) && c != ' ' ==> fts_text(a.push(c) + b) == (if fts_text(a).len() == 0 {
            fts_text(b)
        } else if fts_text(b).len() == 0 {
            fts_text(a)
        } else {
            fts_text(a) + seq![' '] + fts_text(b)
        }),
{
    reveal(Seq::filter);
    let some = |p: Seq<char>| p.len() > 0;
    reveal_strlit(" ");
    assert(" "@ =~= seq![' ']);
    if forall|i: int| 0 <= i < a.len() ==> letter_or_digit(#[trigger] a[i]) || a[i] == ' ' {
        assert forall|i: int| 0 <= i < a.len() implies !separates(#[trigger] a[i]) by {
            assert(letter_or_digit(a[i]) || a[i] == ' ');
        }
        lemma_fragments_one(a);
        assert(seq![a].drop_last() =~= Seq::<Seq<char>>::empty());
        assert(Seq::<Seq<char>>::empty().filter(some) =~= Seq::<Seq<char>>::empty());
        if a.len() > 0 {
            assert(seq![a].filter(some) =~= seq![a]);
        } else {
            assert(seq![a].filter(some) =~= Seq::<Seq<char>>::empty());
            assert(fts_text(a) =~= a);
        }
    }
    if separates(c) {
        lemma_fragments_split(a, c, b);
        lemma_filter_lists(fragments(a), fragments(b));
        let fa = fragments(a).filter(some);
        let fb = fragments(b).filter(some);
        law_joined_lists(fa, fb, " "@);
        lemma_joined_some(fragments(a));
        lemma_joined_some(fragments(b));
        if fa.len() == 0 {
            assert(fa + fb =~= fb);
        } else if fb.len() == 0 {
            assert(fa + fb =~= fa);
        }
        assert(fts_text(a.push(c) + b) == joined(fa + fb, " "@));
    }
}

proof fn lemma_joined_some(parts: Seq<Seq<char>>)
    ensures
        joined(parts.filter(|p: Seq<char>| p.len() > 0), " "@).len() == 0 <==> parts.filter(
            |p: Seq<char>| p.len() > 0,
        ).len() == 0,
{
    let some = |p: Seq<char>| p.len() > 0;
    let kept = parts.filter(some);
    if kept.len() > 0 {
        parts.lemma_filter_pred(some, kept.len() - 1);
    }
}

/// Two rounds of one search have one field, one pattern, one window of dates and one limit.
pub proof fn law_rounds_of_a_search(a: LoreSearch, b: LoreSearch)
    requires
        a.same_search(b),
    ensures
        a.field() == b.field(),
        a.pattern() == b.pattern(),
        a.dates() == b.dates(),
        a.max() == b.max(),
{
}

} // verus!
