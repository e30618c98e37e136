//! Mail as the table of mail holds it, and how single mails are found.
use crate::calls::{escape_sql, sql_escaped};
use crate::database::DatabaseManager;
use crate::dates::{instant_of, law_window, window, Window};
use crate::email::{opt_view, LoreEmailInfo};
use crate::grep::limited;
use crate::json::{json_strings, parse_strings, strings_json, strings_outcome, write_strings};
use crate::lists::{lemma_filter_step, NameSet};
use crate::text::{
    chars_of, contains_part, ends_with, find_char, has_part, law_occurs, lemma_position, occurs_at,
    opt_text, same, starts_with, strs,
};
use crate::upserts::{keys, law_upserted, one_row_each, upserted, Keyed};
use vstd::prelude::*;

verus! {

/// A row of the table of mail; the symbols are JSON.
pub struct LoreRow {
    pub git_commit_sha: String,
    pub from: String,
    pub date: String,
    pub message_id: String,
    pub in_reply_to: Option<String>,
    pub subject: String,
    pub references: Option<String>,
    pub recipients: String,
    pub headers: String,
    pub body: String,
    pub symbols: String,
}

/// Whether a row and a mail agree, apart from the symbols.
pub open spec fn same_mail_texts(row: LoreRow, mail: LoreEmailInfo) -> bool {
    &&& row.git_commit_sha@ == mail.git_commit_sha@
    &&& row.from@ == mail.from@
    &&& row.date@ == mail.date@
    &&& row.message_id@ == mail.message_id@
    &&& opt_view(row.in_reply_to) == opt_view(mail.in_reply_to)
    &&& row.subject@ == mail.subject@
    &&& opt_view(row.references) == opt_view(mail.references)
    &&& row.recipients@ == mail.recipients@
    &&& row.headers@ == mail.headers@
    &&& row.body@ == mail.body@
}

/// The symbols that a row gives; none where it does not give them as JSON.
pub open spec fn row_symbols(row: LoreRow) -> Seq<Seq<char>> {
    match json_strings(row.symbols@) {
        Some(list) => list,
        None => Seq::empty(),
    }
}

/// Whether a mail is what a row reads as.
pub open spec fn mail_of_row(row: LoreRow, mail: LoreEmailInfo) -> bool {
    same_mail_texts(row, mail) && strs(mail.symbols@) == row_symbols(row)
}

/// Whether a row holds a mail.
pub open spec fn stores_mail(row: LoreRow, mail: LoreEmailInfo) -> bool {
    &&& same_mail_texts(row, mail)
    &&& row.symbols@ == strings_json(strs(mail.symbols@))
    &&& json_strings(row.symbols@) == Some(strs(mail.symbols@))
}

/// Whether two mails are the same.
pub open spec fn same_mail(a: LoreEmailInfo, b: LoreEmailInfo) -> bool {
    &&& a.git_commit_sha@ == b.git_commit_sha@
    &&& a.from@ == b.from@
    &&& a.date@ == b.date@
    &&& a.message_id@ == b.message_id@
    &&& opt_view(a.in_reply_to) == opt_view(b.in_reply_to)
    &&& a.subject@ == b.subject@
    &&& opt_view(a.references) == opt_view(b.references)
    &&& a.recipients@ == b.recipients@
    &&& a.headers@ == b.headers@
    &&& a.body@ == b.body@
    &&& strs(a.symbols@) == strs(b.symbols@)
}

/// Whether mails are what rows read as, one for one.
pub open spec fn mails_of_rows(rows: Seq<LoreRow>, mails: Seq<LoreEmailInfo>) -> bool {
    &&& mails.len() == rows.len()
    &&& forall|i: int| 0 <= i < rows.len() ==> mail_of_row(#[trigger] rows[i], mails[i])
}

/// A mail that was stored reads back as it was.
pub proof fn law_stored_mail_reads_back(row: LoreRow, stored: LoreEmailInfo, read: LoreEmailInfo)
    requires
        stores_mail(row, stored),
        mail_of_row(row, read),
    ensures
        same_mail(stored, read),
{
}

fn copy_opt(s: &Option<String>) -> (r: Option<String>)
    ensures
        opt_view(r) == opt_view(*s),
{
    match s {
        Some(t) => Some(t.clone()),
        None => None,
    }
}

/// The row that holds a mail.
pub fn row_of_mail(mail: &LoreEmailInfo) -> (r: LoreRow)
    ensures
        stores_mail(r, *mail),
{
    let symbols = write_strings(&mail.symbols).unwrap();
    LoreRow {
        git_commit_sha: mail.git_commit_sha.clone(),
        from: mail.from.clone(),
        date: mail.date.clone(),
        message_id: mail.message_id.clone(),
        in_reply_to: copy_opt(&mail.in_reply_to),
        subject: mail.subject.clone(),
        references: copy_opt(&mail.references),
        recipients: mail.recipients.clone(),
        headers: mail.headers.clone(),
        body: mail.body.clone(),
        symbols,
    }
}

/// The mail that a row reads as.
pub fn read_mail(row: LoreRow) -> (r: LoreEmailInfo)
    ensures
        mail_of_row(row, r),
{
    let symbols: Vec<String> = match parse_strings(row.symbols.as_str()) {
        Ok(list) => list,
        Err(_) => Vec::new(),
    };
    proof {
        if symbols@.len() == 0 {
            assert(strs(symbols@) =~= Seq::<Seq<char>>::empty());
        }
    }
    LoreEmailInfo {
        git_commit_sha: row.git_commit_sha,
        from: row.from,
        date: row.date,
        message_id: row.message_id,
        in_reply_to: row.in_reply_to,
        subject: row.subject,
        references: row.references,
        recipients: row.recipients,
        headers: row.headers,
        body: row.body,
        symbols,
    }
}

/// A message id in angle brackets; they are added where one of them is missing.
pub open spec fn bracketed(id: Seq<char>) -> Seq<char> {
    if occurs_at(id, "<"@, 0) && occurs_at(id, ">"@, id.len() - ">"@.len()) {
        id
    } else {
        "<"@ + id + ">"@
    }
}

/// Whether a character has a meaning of its own in a pattern.
pub open spec fn is_pattern_char(c: char) -> bool {
    "\\.+*?()|[]{}^$"@.contains(c)
}

/// A text as a pattern that matches it literally: a backslash stands before each
/// character with a meaning of its own.
pub open spec fn literal_pattern(s: Seq<char>) -> Seq<char>
    decreases s.len(),
{
    if s.len() == 0 {
        Seq::empty()
    } else {
        let rest = literal_pattern(s.drop_last());
        if is_pattern_char(s.last()) {
            rest.push('\\').push(s.last())
        } else {
            rest.push(s.last())
        }
    }
}

fn make_literal(s: &str) -> (r: String)
    ensures
        r@ == literal_pattern(s@),
{
    let cs = chars_of(s);
    let special = chars_of("\\.+*?()|[]{}^$");
    let mut out: String = String::new();
    let mut i: usize = 0;
    while i < cs.len()
        invariant
            i <= cs@.len(),
            special@ == "\\.+*?()|[]{}^$"@,
            out@ == literal_pattern(cs@.take(i as int)),
        decreases cs@.len() - i,
    {
        let c = cs[i];
        proof {
            assert(cs@.take(i + 1).drop_last() =~= cs@.take(i as int));
            assert(cs@.take(i + 1).last() == c);
            lemma_position(special@, c);
        }
        if find_char(&special, c).is_some() {
            out.push('\\');
        }
        out.push(c);
        i += 1;
    }
    proof {
        assert(cs@.take(i as int) =~= s@);
    }
    out
}

/// Whether a mail refers to a message: it replies to it, or has its id among its
/// references.
pub open spec fn refers(row: LoreRow, message_id: Seq<char>) -> bool {
    ||| row.in_reply_to is Some && row.in_reply_to->0@ == message_id
    ||| row.references is Some && has_part(row.references->0@, message_id)
}

fn row_refers(row: &LoreRow, message_id: &str) -> (r: bool)
    ensures
        r == refers(*row, message_id@),
{
    if let Some(id) = &row.in_reply_to {
        if same(id.as_str(), message_id) {
            return true;
        }
    }
    match &row.references {
        Some(list) => contains_part(list.as_str(), message_id),
        None => false,
    }
}

/// The rows that refer to a message.
pub open spec fn referring(rows: Seq<LoreRow>, message_id: Seq<char>) -> Seq<LoreRow> {
    rows.filter(|row: LoreRow| refers(row, message_id))
}

fn keep_referring(rows: Vec<LoreRow>, message_id: &str) -> (r: Vec<LoreRow>)
    ensures
        r@ == referring(rows@, message_id@),
{
    let ghost all = rows@;
    let ghost keep = |row: LoreRow| refers(row, message_id@);
    let mut kept: Vec<LoreRow> = Vec::new();
    let ghost mut i: int = 0;
    proof {
        reveal(Seq::filter);
    }
    for row in it: rows.into_iter()
        invariant
            it.seq() == all,
            i == it.index(),
            keep == (|row: LoreRow| refers(row, message_id@)),
            kept@ == all.take(i).filter(keep),
    {
        proof {
            reveal(Seq::filter);
            assert(all.take(i + 1).drop_last() =~= all.take(i));
            assert(all.take(i + 1).last() == row);
            i = i + 1;
        }
        if row_refers(&row, message_id) {
            kept.push(row);
        }
    }
    proof {
        assert(all.take(i) =~= all);
    }
    kept
}

/// Those of a list of rows whose message id did not occur before.
pub open spec fn first_rows(rows: Seq<LoreRow>) -> Seq<LoreRow>
    decreases rows.len(),
{
    if rows.len() == 0 {
        Seq::empty()
    } else {
        let rest = first_rows(rows.drop_last());
        if ids(rows.drop_last()).contains(rows.last().message_id@) {
            rest
        } else {
            rest.push(rows.last())
        }
    }
}

/// The message ids of rows.
pub open spec fn ids(rows: Seq<LoreRow>) -> Seq<Seq<char>> {
    rows.map_values(|r: LoreRow| r.message_id@)
}

/// The rows that have a text in their subject, as many as a limit allows; a limit of zero
/// is none.
pub open spec fn subject_rows(rows: Seq<LoreRow>, subject: Seq<char>, limit: nat) -> Seq<LoreRow> {
    limited(rows.filter(|row: LoreRow| has_part(row.subject@, subject)), limit).0
}

/// Whether the date of a row lies in a window. In a window without bounds every row lies,
/// whatever its date.
pub open spec fn date_fits(row: LoreRow, w: Window) -> bool {
    (w.since is None && w.until is None) || w.holds_date(row.date@)
}

/// The rows whose dates lie in a window.
pub open spec fn dated_rows(rows: Seq<LoreRow>, w: Window) -> Seq<LoreRow> {
    rows.filter(|row: LoreRow| date_fits(row, w))
}

impl DatabaseManager {
    /// The rows that hold mails, one for each.
    pub fn insert_lore_emails(&self, emails: &Vec<LoreEmailInfo>) -> (r: Vec<LoreRow>)
        ensures
            r@.len() == emails@.len(),
            forall|i: int| 0 <= i < r@.len() ==> stores_mail(#[trigger] r@[i], emails@[i]),
    {
        let mut rows: Vec<LoreRow> = Vec::new();
        let mut i: usize = 0;
        while i < emails.len()
            invariant
                i <= emails@.len(),
                rows@.len() == i,
                forall|j: int| 0 <= j < i ==> stores_mail(#[trigger] rows@[j], emails@[j]),
            decreases emails@.len() - i,
        {
            rows.push(row_of_mail(&emails[i]));
            i += 1;
        }
        rows
    }

    /// The mails that rows read as, one for each.
    pub fn get_all_lore_emails(&self, rows: Vec<LoreRow>) -> (r: Vec<LoreEmailInfo>)
        ensures
            mails_of_rows(rows@, r@),
    {
        let ghost all = rows@;
        let mut mails: Vec<LoreEmailInfo> = Vec::new();
        for row in it: rows.into_iter()
            invariant
                it.seq() == all,
                mails@.len() == it.index(),
                forall|i: int| 0 <= i < mails@.len() ==> mail_of_row(#[trigger] all[i], mails@[i]),
        {
            mails.push(read_mail(row));
        }
        mails
    }

    /// The condition by which the mails of a commit are found.
    pub fn lore_commit_filter(&self, git_sha: &str) -> (r: String)
        ensures
            r@ == "git_commit_sha = '"@ + sql_escaped(git_sha@) + "'"@,
    {
        let mut out: String = "git_commit_sha = '".to_owned();
        out.append(escape_sql(git_sha).as_str());
        out.append("'");
        out
    }

    /// The mails of a commit, from the rows found for it.
    pub fn get_lore_emails_by_commit(&self, rows: Vec<LoreRow>) -> (r: Vec<LoreEmailInfo>)
        ensures
            mails_of_rows(rows@, r@),
    {
        self.get_all_lore_emails(rows)
    }

    /// The condition by which a mail is found by its message id.
    pub fn lore_message_filter(&self, message_id: &str) -> (r: String)
        ensures
            r@ == "message_id = '"@ + sql_escaped(bracketed(message_id@)) + "'"@,
    {
        let id: String = if starts_with(message_id, "<") && ends_with(message_id, ">") {
            message_id.to_owned()
        } else {
            let mut id: String = "<".to_owned();
            id.append(message_id);
            id.append(">");
            id
        };
        let mut out: String = "message_id = '".to_owned();
        out.append(escape_sql(id.as_str()).as_str());
        out.append("'");
        out
    }

    /// The mail with a message id, from the rows found for it: the first.
    pub fn get_lore_email_by_message_id(&self, rows: Vec<LoreRow>) -> (r: Option<LoreEmailInfo>)
        ensures
            match r {
                Some(mail) => rows@.len() > 0 && mail_of_row(rows@[0], mail),
                None => rows@.len() == 0,
            },
    {
        let mut all = rows;
        if all.len() == 0 {
            None
        } else {
            Some(read_mail(all.remove(0)))
        }
    }

    /// The conditions by which the mails that may refer to a message are found: those that
    /// reply to it, and those that have its id, read literally, among their references.
    pub fn lore_reference_filters(&self, message_id: &str) -> (r: (String, String))
        ensures
            r.0@ == "in_reply_to = '"@ + sql_escaped(message_id@) + "'"@,
            r.1@ == "regexp_like(`references`, '"@ + sql_escaped(literal_pattern(message_id@))
                + "')"@,
    {
        let mut replies: String = "in_reply_to = '".to_owned();
        replies.append(escape_sql(message_id).as_str());
        replies.append("'");
        let mut references: String = "regexp_like(`references`, '".to_owned();
        references.append(escape_sql(make_literal(message_id).as_str()).as_str());
        references.append("')");
        (replies, references)
    }

    /// The mails that refer to a message, from the rows that may reply to it and the rows
    /// that may have it among their references: those that do, each message once.
    pub fn get_lore_emails_referencing(
        &self,
        message_id: &str,
        replies: Vec<LoreRow>,
        references: Vec<LoreRow>,
    ) -> (r: Vec<LoreEmailInfo>)
        ensures
            mails_of_rows(first_rows(referring(replies@ + references@, message_id@)), r@),
    {
        let mut found = replies;
        let mut others = references;
        found.append(&mut others);
        proof {
            assert(found@ =~= replies@ + references@);
        }
        let rows = keep_referring(found, message_id);
        let ghost all = rows@;
        let mut seen: NameSet = NameSet::new();
        let mut mails: Vec<LoreEmailInfo> = Vec::new();
        let ghost mut i: int = 0;
        for row in it: rows.into_iter()
            invariant
                it.seq() == all,
                i == it.index(),
                forall|x: Seq<char>| #[trigger]
                    seen@.contains(x) <==> ids(all.take(i)).contains(x),
                mails_of_rows(first_rows(all.take(i)), mails@),
        {
            let ghost before = all.take(i);
            let ghost now = all.take(i + 1);
            let ghost id = row.message_id@;
            let ghost was = seen@;
            let ghost kept = first_rows(before);
            proof {
                assert(now.drop_last() =~= before);
                assert(now.last() == row);
                assert(ids(now) =~= ids(before).push(id));
            }
            let fresh = seen.insert(row.message_id.clone());
            proof {
                assert forall|x: Seq<char>| #[trigger] seen@.contains(x) <==> ids(now).contains(x) by {
                    assert(was.contains(x) <==> ids(before).contains(x));
                    if ids(before).contains(x) {
                        let k = choose|k: int| 0 <= k < ids(before).len() && ids(before)[k] == x;
                        assert(ids(now)[k] == x);
                    }
                    if x == id {
                        assert(ids(now)[i] == x);
                    }
                }
            }
            if fresh {
                let ghost had = mails@;
                let mail = read_mail(row);
                mails.push(mail);
                proof {
                    assert(first_rows(now) == kept.push(row));
                    assert forall|j: int| 0 <= j < first_rows(now).len() implies mail_of_row(
                        #[trigger] first_rows(now)[j],
                        mails@[j],
                    ) by {
                        if j < kept.len() {
                            assert(mail_of_row(kept[j], had[j]));
                        }
                    }
                }
            }
            proof {
                i = i + 1;
            }
        }
        proof {
            assert(all.take(i) =~= all);
        }
        mails
    }

    /// The condition by which mails are found by a part of their subject.
    pub fn lore_subject_filter(&self, subject: &str) -> (r: String)
        ensures
            r@ == "subject LIKE '%"@ + sql_escaped(subject@) + "%'"@,
    {
        let mut out: String = "subject LIKE '%".to_owned();
        out.append(escape_sql(subject).as_str());
        out.append("%'");
        out
    }

    /// The mails among rows that have a text in their subject, in the same case, up to a
    /// limit; of these, those whose date lies between two dates. Where no bound is a date,
    /// any date will do.
    pub fn search_lore_emails_by_subject(
        &self,
        rows: Vec<LoreRow>,
        subject: &str,
        limit: usize,
        since_date: Option<&str>,
        until_date: Option<&str>,
    ) -> (r: Vec<LoreEmailInfo>)
        ensures
            mails_of_rows(
                dated_rows(
                    subject_rows(rows@, subject@, limit as nat),
                    window(opt_text(since_date), opt_text(until_date)),
                ),
                r@,
            ),
    {
        let w = Window::new(since_date, until_date);
        let n: usize = rows.len();
        let ghost all = rows@;
        let ghost named = |row: LoreRow| has_part(row.subject@, subject@);
        let ghost dated = |row: LoreRow| date_fits(row, w);
        let mut taken: usize = 0;
        let mut mails: Vec<LoreEmailInfo> = Vec::new();
        let ghost mut i: int = 0;
        proof {
            reveal(Seq::filter);
        }
        for row in it: rows.into_iter()
            invariant
                it.seq() == all,
                i == it.index(),
                n == all.len(),
                named == (|row: LoreRow| has_part(row.subject@, subject@)),
                dated == (|row: LoreRow| date_fits(row, w)),
                taken == limited(all.take(i).filter(named), limit as nat).0.len(),
                taken <= i,
                mails_of_rows(
                    limited(all.take(i).filter(named), limit as nat).0.filter(dated),
                    mails@,
                ),
        {
            let ghost matching = all.take(i).filter(named);
            let ghost before = limited(matching, limit as nat).0;
            let ghost now = limited(all.take(i + 1).filter(named), limit as nat).0;
            let ghost kept = before.filter(dated);
            let ghost had = mails@;
            proof {
                reveal(Seq::filter);
                assert(all.take(i + 1).drop_last() =~= all.take(i));
                assert(all.take(i + 1).last() == row);
                i = i + 1;
            }
            if contains_part(row.subject.as_str(), subject) {
                if limit > 0 && taken >= limit {
                    assert(now =~= before);
                } else {
                    taken += 1;
                    proof {
                        assert(now =~= before.push(row));
                        assert(now.drop_last() =~= before);
                    }
                    if w.is_open() || w.admits(row.date.as_str()) {
                        mails.push(read_mail(row));
                        proof {
                            let later = now.filter(dated);
                            assert(later =~= kept.push(row));
                            assert forall|j: int| 0 <= j < later.len() implies mail_of_row(
                                #[trigger] later[j],
                                mails@[j],
                            ) by {
                                if j < kept.len() {
                                    assert(mail_of_row(kept[j], had[j]));
                                }
                            }
                        }
                    }
                }
            }
        }
        proof {
            assert(all.take(i) =~= all);
        }
        mails
    }
}

/// Brackets are added once: a message id with them stays as it is.
pub proof fn law_bracketed_once(id: Seq<char>)
    ensures
        bracketed(bracketed(id)) == bracketed(id),
{
    reveal_strlit("<");
    reveal_strlit(">");
    let b = "<"@ + id + ">"@;
    assert(b.subrange(0, 1) =~= "<"@);
    assert(b.subrange(b.len() - 1, b.len() as int) =~= ">"@);
}

/// Each message is kept once, and none is lost.
pub proof fn law_first_rows(rows: Seq<LoreRow>)
    ensures
        ids(first_rows(rows)).no_duplicates(),
        forall|x: Seq<char>| #[trigger] ids(first_rows(rows)).contains(x) <==> ids(rows).contains(x),
    decreases rows.len(),
{
    if rows.len() > 0 {
        let before = rows.drop_last();
        let id = rows.last().message_id@;
        law_first_rows(before);
        let few = first_rows(before);
        let all = first_rows(rows);
        assert(rows =~= before.push(rows.last()));
        assert(ids(rows) =~= ids(before).push(id));
        if !ids(before).contains(id) {
            assert(!ids(few).contains(id));
            assert(ids(all) =~= ids(few).push(id));
        }
        assert forall|x: Seq<char>| #[trigger] ids(all).contains(x) <==> ids(rows).contains(x) by {
            if ids(all).contains(x) {
                let k = choose|k: int| 0 <= k < ids(all).len() && ids(all)[k] == x;
                if k < few.len() {
                    assert(ids(few)[k] == x);
                    assert(ids(few).contains(x));
                    let m = choose|m: int| 0 <= m < ids(before).len() && ids(before)[m] == x;
                    assert(ids(rows)[m] == x);
                } else {
                    assert(ids(rows)[before.len() as int] == x);
                }
            }
            if ids(rows).contains(x) {
                let m = choose|m: int| 0 <= m < ids(rows).len() && ids(rows)[m] == x;
                if m < before.len() {
                    assert(ids(before)[m] == x);
                    assert(ids(few).contains(x));
                    let k = choose|k: int| 0 <= k < ids(few).len() && ids(few)[k] == x;
                    assert(ids(all)[k] == x);
                } else if ids(before).contains(x) {
                    assert(ids(few).contains(x));
                } else {
                    assert(ids(all)[few.len() as int] == x);
                }
            }
        }
    }
}

/// The mails that refer to a message are kept once each, no other is kept, and of every
/// row that refers to it the message is among them.
pub proof fn law_referring_mails(rows: Seq<LoreRow>, message_id: Seq<char>)
    ensures
        ids(first_rows(referring(rows, message_id))).no_duplicates(),
        forall|i: int|
            0 <= i < first_rows(referring(rows, message_id)).len() ==> refers(
                #[trigger] first_rows(referring(rows, message_id))[i],
                message_id,
            ),
        forall|j: int|
            0 <= j < rows.len() && refers(#[trigger] rows[j], message_id) ==> ids(
                first_rows(referring(rows, message_id)),
            ).contains(rows[j].message_id@),
{
    let keep = |row: LoreRow| refers(row, message_id);
    let found = referring(rows, message_id);
    law_first_rows(found);
    lemma_first_rows_within(found);
    assert forall|i: int| 0 <= i < first_rows(found).len() implies refers(
        #[trigger] first_rows(found)[i],
        message_id,
    ) by {
        let k = choose|k: int| 0 <= k < found.len() && found[k] == first_rows(found)[i];
        rows.lemma_filter_pred(keep, k);
    }
    assert forall|j: int| 0 <= j < rows.len() && refers(#[trigger] rows[j], message_id) implies ids(
        first_rows(found),
    ).contains(rows[j].message_id@) by {
        rows.lemma_filter_contains(keep, j);
        let k = choose|k: int| 0 <= k < found.len() && found[k] == rows[j];
        assert(ids(found)[k] == rows[j].message_id@);
    }
}

proof fn lemma_first_rows_within(rows: Seq<LoreRow>)
    ensures
        forall|i: int|
            0 <= i < first_rows(rows).len() ==> rows.contains(#[trigger] first_rows(rows)[i]),
    decreases rows.len(),
{
    if rows.len() > 0 {
        let before = rows.drop_last();
        lemma_first_rows_within(before);
        assert forall|i: int| 0 <= i < first_rows(rows).len() implies rows.contains(
            #[trigger] first_rows(rows)[i],
        ) by {
            if i < first_rows(before).len() {
                assert(before.contains(first_rows(before)[i]));
                let k = choose|k: int|
                    0 <= k < before.len() && before[k] == first_rows(before)[i];
                assert(rows[k] == first_rows(rows)[i]);
            } else {
                assert(rows[rows.len() - 1] == first_rows(rows)[i]);
            }
        }
    }
}

/// What a row holds besides its key.
pub ghost struct MailValues {
    pub git_commit_sha: Seq<char>,
    pub from: Seq<char>,
    pub date: Seq<char>,
    pub in_reply_to: Option<Seq<char>>,
    pub subject: Seq<char>,
    pub references: Option<Seq<char>>,
    pub recipients: Seq<char>,
    pub headers: Seq<char>,
    pub body: Seq<char>,
    pub symbols: Seq<char>,
}

/// A row by its key.
pub open spec fn keyed_mail_row(row: LoreRow) -> Keyed<MailValues> {
    (
        row.message_id@,
        MailValues {
            git_commit_sha: row.git_commit_sha@,
            from: row.from@,
            date: row.date@,
            in_reply_to: opt_view(row.in_reply_to),
            subject: row.subject@,
            references: opt_view(row.references),
            recipients: row.recipients@,
            headers: row.headers@,
            body: row.body@,
            symbols: row.symbols@,
        },
    )
}

/// What the table holds of a mail, by its key.
pub open spec fn keyed_mail(mail: LoreEmailInfo) -> Keyed<MailValues> {
    (
        mail.message_id@,
        MailValues {
            git_commit_sha: mail.git_commit_sha@,
            from: mail.from@,
            date: mail.date@,
            in_reply_to: opt_view(mail.in_reply_to),
            subject: mail.subject@,
            references: opt_view(mail.references),
            recipients: mail.recipients@,
            headers: mail.headers@,
            body: mail.body@,
            symbols: strings_json(strs(mail.symbols@)),
        },
    )
}

/// Rows by their keys.
pub open spec fn keyed_mail_rows(rows: Seq<LoreRow>) -> Seq<Keyed<MailValues>> {
    rows.map_values(|row: LoreRow| keyed_mail_row(row))
}

/// Writing the rows of mails with distinct message ids to a table with at most one row for
/// each leaves at most one row for each. Of every mail the table then holds exactly its
/// values, an older row is replaced, and the rows of other messages are as they were.
/// Storing the same mails again changes nothing; storing none changes nothing.
pub proof fn law_stored_mails_replace(
    table: Set<Keyed<MailValues>>,
    mails: Seq<LoreEmailInfo>,
    rows: Seq<LoreRow>,
    again: Seq<LoreRow>,
)
    requires
        one_row_each(table),
        ids(rows).no_duplicates(),
        rows.len() == mails.len(),
        again.len() == mails.len(),
        forall|i: int| 0 <= i < rows.len() ==> stores_mail(#[trigger] rows[i], mails[i]),
        forall|i: int| 0 <= i < again.len() ==> stores_mail(#[trigger] again[i], mails[i]),
    ensures
        ({
            let after = upserted(table, keyed_mail_rows(rows));
            &&& one_row_each(after)
            &&& forall|i: int|
                0 <= i < mails.len() ==> after.contains(keyed_mail(#[trigger] mails[i]))
            &&& forall|x: Keyed<MailValues>, i: int|
                0 <= i < mails.len() && #[trigger] after.contains(x) && x.0 == (
                #[trigger] mails[i]).message_id@ ==> x == keyed_mail(mails[i])
            &&& forall|x: Keyed<MailValues>|
                !ids(rows).contains(x.0) ==> (#[trigger] after.contains(x) <==> table.contains(x))
            &&& upserted(after, keyed_mail_rows(again)) == after
            &&& mails.len() == 0 ==> after == table
        }),
{
    let entries = keyed_mail_rows(rows);
    assert forall|i: int| 0 <= i < rows.len() implies #[trigger] entries[i] == keyed_mail(
        mails[i],
    ) by {
        assert(stores_mail(rows[i], mails[i]));
    }
    assert forall|i: int| 0 <= i < again.len() implies #[trigger] keyed_mail_rows(again)[i]
        == keyed_mail(mails[i]) by {
        assert(stores_mail(again[i], mails[i]));
    }
    assert(keyed_mail_rows(again) =~= entries);
    assert(keys(entries) =~= ids(rows));
    law_upserted(table, entries);
    let after = upserted(table, entries);
    assert forall|i: int| 0 <= i < mails.len() implies after.contains(
        keyed_mail(#[trigger] mails[i]),
    ) by {
        assert(after.contains(entries[i]));
    }
    assert forall|x: Keyed<MailValues>, i: int|
        0 <= i < mails.len() && #[trigger] after.contains(x) && x.0 == (
        #[trigger] mails[i]).message_id@ implies x == keyed_mail(mails[i]) by {
        assert(entries[i] == keyed_mail(mails[i]));
    }
}

/// A message id stands in angle brackets: one that starts with the one and ends with the other
/// stays, and any other gets both.
pub proof fn law_bracketed(id: Seq<char>)
    ensures
        id.len() > 0 && id[0] == '<' && id.last() == '>' ==> bracketed(id) == id,
        id.len() == 0 || id[0] != '<' || id.last() != '>' ==> bracketed(id) == seq!['<'] + id + seq![
            '>',
        ],
{
    reveal_strlit("<");
    reveal_strlit(">");
    assert("<"@ =~= seq!['<']);
    assert(">"@ =~= seq!['>']);
    law_occurs(id, "<"@, 0);
    law_occurs(id, ">"@, id.len() - ">"@.len());
    if occurs_at(id, "<"@, 0) {
        assert("<"@[0] == id[0]);
    }
    if occurs_at(id, ">"@, id.len() - ">"@.len()) {
        assert(">"@[0] == id[id.len() - 1]);
    }
}

/// A text is read literally in a pattern character by character: one of those with a meaning
/// of their own gets a backslash before it, and any other stays.
pub proof fn law_literal_pattern(s: Seq<char>, c: char)
    ensures
        literal_pattern(Seq::<char>::empty()).len() == 0,
        c == '\\' || c == '.' || c == '+' || c == '*' || c == '?' || c == '(' || c == ')' || c == '|'
            || c == '[' || c == ']' || c == '{' || c == '}' || c == '^' || c == '$'
            ==> literal_pattern(s.push(c)) == literal_pattern(s) + seq!['\\', c],
        !(c == '\\' || c == '.' || c == '+' || c == '*' || c == '?' || c == '(' || c == ')' || c
            == '|' || c == '[' || c == ']' || c == '{' || c == '}' || c == '^' || c == '$')
            ==> literal_pattern(s.push(c)) == literal_pattern(s) + seq![c],
{
    reveal_strlit("\\.+*?()|[]{}^$");
    let marks = "\\.+*?()|[]{}^$"@;
    assert(marks[0] == '\\' && marks[1] == '.' && marks[2] == '+' && marks[3] == '*' && marks[4]
        == '?' && marks[5] == '(' && marks[6] == ')' && marks[7] == '|' && marks[8] == '['
        && marks[9] == ']' && marks[10] == '{' && marks[11] == '}' && marks[12] == '^' && marks[13]
        == '$');
    assert(marks.len() == 14);
    assert(s.push(c).drop_last() =~= s);
    if is_pattern_char(c) {
        let k = choose|k: int| 0 <= k < marks.len() && marks[k] == c;
        assert(literal_pattern(s.push(c)) =~= literal_pattern(s) + seq!['\\', c]);
    } else {
        assert(literal_pattern(s.push(c)) =~= literal_pattern(s) + seq![c]);
    }
}

/// A row refers to a message exactly where it replies to it or where the message id stands
/// somewhere in its references, character by character.
pub proof fn law_refers(row: LoreRow, message_id: Seq<char>)
    ensures
        refers(row, message_id) <==> (row.in_reply_to is Some && row.in_reply_to->0@ == message_id)
            || (row.references is Some && exists|at: int|
            0 <= at && at + message_id.len() <= row.references->0@.len() && #[trigger] row.references->0@.subrange(
                at,
                at + message_id.len(),
            ) == message_id),
{
    if row.references is Some && has_part(row.references->0@, message_id) {
        let at = choose|at: int| occurs_at(row.references->0@, message_id, at);
        assert(row.references->0@.subrange(at, at + message_id.len()) == message_id);
    }
    if row.references is Some && exists|at: int|
        0 <= at && at + message_id.len() <= row.references->0@.len() && #[trigger] row.references->0@.subrange(
            at,
            at + message_id.len(),
        ) == message_id {
        let at = choose|at: int|
            0 <= at && at + message_id.len() <= row.references->0@.len() && #[trigger] row.references->0@.subrange(
                at,
                at + message_id.len(),
            ) == message_id;
        assert(occurs_at(row.references->0@, message_id, at));
    }
}

/// The rows that refer to a message are among the rows, and every row that does is one.
pub proof fn law_referring(rows: Seq<LoreRow>, message_id: Seq<char>, row: LoreRow)
    ensures
        referring(rows, message_id).contains(row) <==> rows.contains(row) && refers(row, message_id),
{
    lemma_kept(rows, |row: LoreRow| refers(row, message_id), row);
}

proof fn lemma_kept(rows: Seq<LoreRow>, keep: spec_fn(LoreRow) -> bool, row: LoreRow)
    ensures
        rows.filter(keep).contains(row) <==> rows.contains(row) && keep(row),
{
    let kept = rows.filter(keep);
    if kept.contains(row) {
        rows.lemma_filter_contains_rev(keep, row);
        let k = choose|k: int| 0 <= k < kept.len() && kept[k] == row;
        rows.lemma_filter_pred(keep, k);
    }
    if rows.contains(row) && keep(row) {
        let k = choose|k: int| 0 <= k < rows.len() && rows[k] == row;
        rows.lemma_filter_contains(keep, k);
    }
}

/// One more row is kept exactly where no row before it has its message id.
pub proof fn law_first_rows_step(rows: Seq<LoreRow>, row: LoreRow)
    ensures
        first_rows(Seq::<LoreRow>::empty()).len() == 0,
        (exists|i: int| 0 <= i < rows.len() && (#[trigger] rows[i]).message_id@ == row.message_id@)
            ==> first_rows(rows.push(row)) == first_rows(rows),
        (forall|i: int| 0 <= i < rows.len() ==> (#[trigger] rows[i]).message_id@ != row.message_id@)
            ==> first_rows(rows.push(row)) == first_rows(rows).push(row),
{
    assert(rows.push(row).drop_last() =~= rows);
    if exists|i: int| 0 <= i < rows.len() && (#[trigger] rows[i]).message_id@ == row.message_id@ {
        let i = choose|i: int|
            0 <= i < rows.len() && (#[trigger] rows[i]).message_id@ == row.message_id@;
        assert(ids(rows)[i] == row.message_id@);
    }
    if ids(rows).contains(row.message_id@) {
        let i = choose|i: int| 0 <= i < ids(rows).len() && ids(rows)[i] == row.message_id@;
        assert(rows[i].message_id@ == row.message_id@);
    }
}

/// A search by subject keeps rows that have the text somewhere in their subject, and keeps
/// every such row unless it keeps as many as the limit. The dates are looked at only then:
/// a row whose date is no date is kept exactly where neither bound is a date.
pub proof fn law_subject_rows(
    rows: Seq<LoreRow>,
    subject: Seq<char>,
    limit: nat,
    row: LoreRow,
)
    ensures
        subject_rows(rows, subject, limit).contains(row) ==> rows.contains(row) && exists|at: int|
            0 <= at && at + subject.len() <= row.subject@.len() && #[trigger] row.subject@.subrange(
                at,
                at + subject.len(),
            ) == subject,
        limit > 0 ==> subject_rows(rows, subject, limit).len() <= limit,
        rows.contains(row) && (exists|at: int|
            0 <= at && at + subject.len() <= row.subject@.len() && #[trigger] row.subject@.subrange(
                at,
                at + subject.len(),
            ) == subject) ==> subject_rows(rows, subject, limit).contains(row) || (limit > 0
            && subject_rows(rows, subject, limit).len() == limit),
{
    let keep = |row: LoreRow| has_part(row.subject@, subject);
    let all = rows.filter(keep);
    let kept = subject_rows(rows, subject, limit);
    lemma_kept(rows, keep, row);
    if kept.contains(row) {
        let k = choose|k: int| 0 <= k < kept.len() && kept[k] == row;
        assert(all[k] == row);
        let at = choose|at: int| occurs_at(row.subject@, subject, at);
        assert(row.subject@.subrange(at, at + subject.len()) == subject);
    }
    if rows.contains(row) && (exists|at: int|
        0 <= at && at + subject.len() <= row.subject@.len() && #[trigger] row.subject@.subrange(
            at,
            at + subject.len(),
        ) == subject) {
        let at = choose|at: int|
            0 <= at && at + subject.len() <= row.subject@.len() && #[trigger] row.subject@.subrange(
                at,
                at + subject.len(),
            ) == subject;
        assert(occurs_at(row.subject@, subject, at));
        assert(keep(row));
    }
}

/// A row is kept for its date exactly where neither of the two dates is given as one, or where
/// its own date names an instant between theirs.
pub proof fn law_dated_rows(
    rows: Seq<LoreRow>,
    since: Option<Seq<char>>,
    until: Option<Seq<char>>,
    row: LoreRow,
)
    ensures
        dated_rows(rows, window(since, until)).contains(row) <==> rows.contains(row) && (((since is None
            || instant_of(since->0) is None) && (until is None || instant_of(until->0) is None)) || ({
            &&& instant_of(row.date@) matches Some(at)
            &&& match since {
                Some(t) => match instant_of(t) {
                    Some(s) => s.0 < at.0 || (s.0 == at.0 && s.1 <= at.1),
                    None => true,
                },
                None => true,
            }
            &&& match until {
                Some(t) => match instant_of(t) {
                    Some(u) => at.0 < u.0 || (at.0 == u.0 && at.1 <= u.1),
                    None => true,
                },
                None => true,
            }
        })),
{
    law_window(since, until, row.date@);
    lemma_kept(rows, |row: LoreRow| date_fits(row, window(since, until)), row);
}

/// What a row reads as, column by column, and what it holds of a mail. Symbols that are no
/// list as JSON read as none.
pub proof fn law_mail_columns(row: LoreRow, mail: LoreEmailInfo)
    ensures
        mail_of_row(row, mail) || stores_mail(row, mail) ==> {
            &&& mail.git_commit_sha@ == row.git_commit_sha@
            &&& mail.from@ == row.from@
            &&& mail.date@ == row.date@
            &&& mail.message_id@ == row.message_id@
            &&& mail.subject@ == row.subject@
            &&& mail.recipients@ == row.recipients@
            &&& mail.headers@ == row.headers@
            &&& mail.body@ == row.body@
            &&& mail.in_reply_to is Some <==> row.in_reply_to is Some
            &&& mail.in_reply_to is Some ==> mail.in_reply_to->0@ == row.in_reply_to->0@
            &&& mail.references is Some <==> row.references is Some
            &&& mail.references is Some ==> mail.references->0@ == row.references->0@
        },
        mail_of_row(row, mail) && (strings_outcome(row.symbols@) is Ok) ==> strs(mail.symbols@)
            == strings_outcome(row.symbols@)->Ok_0,
        mail_of_row(row, mail) && (strings_outcome(row.symbols@) is Err) ==> mail.symbols@.len() == 0,
        stores_mail(row, mail) ==> row.symbols@ == strings_json(strs(mail.symbols@)),
{
    if mail_of_row(row, mail) && (strings_outcome(row.symbols@) is Err) {
        assert(strs(mail.symbols@).len() == mail.symbols@.len());
    }
}

/// Mails that rows read as are as many, and each is what its row reads as.
pub proof fn law_mails_of_rows(rows: Seq<LoreRow>, mails: Seq<LoreEmailInfo>, i: int)
    requires
        mails_of_rows(rows, mails),
        0 <= i < rows.len(),
    ensures
        mails.len() == rows.len(),
        mail_of_row(rows[i], mails[i]),
{
    assert(mail_of_row(rows[i], mails[i]));
}

/// Rows are kept in their order, each as often as it stands: one more row comes behind the
/// others where it refers to the message, has the text in its subject, or is dated between the
/// dates. A limit leaves the first rows.
pub proof fn law_rows_in_order(
    rows: Seq<LoreRow>,
    row: LoreRow,
    message_id: Seq<char>,
    subject: Seq<char>,
    limit: nat,
    w: Window,
)
    ensures
        refers(row, message_id) ==> referring(rows.push(row), message_id) == referring(
            rows,
            message_id,
        ).push(row),
        !refers(row, message_id) ==> referring(rows.push(row), message_id) == referring(rows, message_id),
        has_part(row.subject@, subject) ==> subject_rows(rows.push(row), subject, 0) == subject_rows(
            rows,
            subject,
            0,
        ).push(row),
        !has_part(row.subject@, subject) ==> subject_rows(rows.push(row), subject, 0) == subject_rows(
            rows,
            subject,
            0,
        ),
        subject_rows(rows, subject, limit) == limited(subject_rows(rows, subject, 0), limit).0,
        date_fits(row, w) ==> dated_rows(rows.push(row), w) == dated_rows(rows, w).push(row),
        !date_fits(row, w) ==> dated_rows(rows.push(row), w) == dated_rows(rows, w),
{
    lemma_filter_step(rows, row, |row: LoreRow| refers(row, message_id));
    lemma_filter_step(rows, row, |row: LoreRow| has_part(row.subject@, subject));
    lemma_filter_step(rows, row, |row: LoreRow| date_fits(row, w));
}

} // verus!
