//! Mail of a list archive: headers, body, and the symbols that its patches touch.
use crate::lists::{sorted_distinct, sorted_listing};
use crate::text::{
    chars_of, find_char, join, joined, law_full_lines, law_lines, law_lines_joined, law_lines_split,
    lemma_position, lines, lines_of, lossy_text, lowercase, occurs_at, position, same, starts_with,
    strs, text_from_bytes, trim, trim_range, trimmed,
};
use vstd::prelude::*;

verus! {

/// One mail of an archive, as it is stored.
pub struct LoreEmailInfo {
    pub git_commit_sha: String,
    pub from: String,
    pub date: String,
    pub message_id: String,
    pub in_reply_to: Option<String>,
    pub subject: String,
    pub references: Option<String>,
    pub recipients: String,
    pub headers: String,
    pub body: String,
    pub symbols: Vec<String>,
}

/// The text of an optional string.
pub open spec fn opt_view(s: Option<String>) -> Option<Seq<char>> {
    match s {
        Some(t) => Some(t@),
        None => None,
    }
}

/// The header fields that the index keeps.
pub struct EmailHeaders {
    pub from: String,
    pub date: String,
    pub message_id: String,
    pub in_reply_to: Option<String>,
    pub subject: String,
    pub references: Option<String>,
    pub recipients_list: Vec<String>,
}

/// A header field: its name in lower case and its value.
pub type FieldText = (Seq<char>, Seq<char>);

/// The value of the last field with a name.
pub open spec fn last_value(fields: Seq<FieldText>, name: Seq<char>) -> Option<Seq<char>>
    decreases fields.len(),
{
    if fields.len() == 0 {
        None
    } else if fields.last().0 == name {
        Some(fields.last().1)
    } else {
        last_value(fields.drop_last(), name)
    }
}

/// The value of the last field with a name, the empty text where there is none.
pub open spec fn last_text(fields: Seq<FieldText>, name: Seq<char>) -> Seq<char> {
    match last_value(fields, name) {
        Some(v) => v,
        None => Seq::empty(),
    }
}

/// The values of the fields that name recipients, in order.
pub open spec fn recipient_values(fields: Seq<FieldText>) -> Seq<Seq<char>>
    decreases fields.len(),
{
    if fields.len() == 0 {
        Seq::empty()
    } else {
        let rest = recipient_values(fields.drop_last());
        if fields.last().0 == "to"@ || fields.last().0 == "cc"@ {
            rest.push(fields.last().1)
        } else {
            rest
        }
    }
}

impl EmailHeaders {
    /// Whether this is what a list of fields leaves.
    pub open spec fn holds(self, fields: Seq<FieldText>) -> bool {
        &&& self.from@ == last_text(fields, "from"@)
        &&& self.date@ == last_text(fields, "date"@)
        &&& self.message_id@ == last_text(fields, "message-id"@)
        &&& opt_view(self.in_reply_to) == last_value(fields, "in-reply-to"@)
        &&& self.subject@ == last_text(fields, "subject"@)
        &&& opt_view(self.references) == last_value(fields, "references"@)
        &&& strs(self.recipients_list@) == recipient_values(fields)
    }

    /// The headers of a mail without fields.
    pub fn new() -> (r: EmailHeaders)
        ensures
            r.holds(Seq::empty()),
    {
        let r = EmailHeaders {
            from: String::new(),
            date: String::new(),
            message_id: String::new(),
            in_reply_to: None,
            subject: String::new(),
            references: None,
            recipients_list: Vec::new(),
        };
        proof {
            assert(strs(r.recipients_list@) =~= Seq::empty());
        }
        r
    }

    /// Takes one more field in. Later fields replace earlier ones of the same name;
    /// recipients are gathered.
    pub fn process_header(&mut self, name: &str, value: &str)
        ensures
            forall|fields: Seq<FieldText>| #[trigger]
                old(self).holds(fields) ==> final(self).holds(fields.push((name@, value@))),
            final(self).from@ == (if name@ == "from"@ {
                value@
            } else {
                old(self).from@
            }),
            final(self).date@ == (if name@ == "date"@ {
                value@
            } else {
                old(self).date@
            }),
            final(self).message_id@ == (if name@ == "message-id"@ {
                value@
            } else {
                old(self).message_id@
            }),
            opt_view(final(self).in_reply_to) == (if name@ == "in-reply-to"@ {
                Some(value@)
            } else {
                opt_view(old(self).in_reply_to)
            }),
            final(self).subject@ == (if name@ == "subject"@ {
                value@
            } else {
                old(self).subject@
            }),
            opt_view(final(self).references) == (if name@ == "references"@ {
                Some(value@)
            } else {
                opt_view(old(self).references)
            }),
            strs(final(self).recipients_list@) == (if name@ == "to"@ || name@ == "cc"@ {
                strs(old(self).recipients_list@).push(value@)
            } else {
                strs(old(self).recipients_list@)
            }),
    {
        proof {
            reveal_strlit("from");
            reveal_strlit("date");
            reveal_strlit("message-id");
            reveal_strlit("in-reply-to");
            reveal_strlit("subject");
            reveal_strlit("references");
            reveal_strlit("to");
            reveal_strlit("cc");
            assert("from"@.len() == 4 && "date"@.len() == 4 && "message-id"@.len() == 10);
            assert("in-reply-to"@.len() == 11 && "subject"@.len() == 7);
            assert("references"@.len() == 10 && "to"@.len() == 2 && "cc"@.len() == 2);
            assert("from"@[0] != "date"@[0]);
            assert("to"@[0] != "cc"@[0]);
            assert("message-id"@[0] != "references"@[0]);
        }
        if same(name, "from") {
            self.from = value.to_owned();
        } else if same(name, "date") {
            self.date = value.to_owned();
        } else if same(name, "message-id") {
            self.message_id = value.to_owned();
        } else if same(name, "in-reply-to") {
            self.in_reply_to = Some(value.to_owned());
        } else if same(name, "subject") {
            self.subject = value.to_owned();
        } else if same(name, "references") {
            self.references = Some(value.to_owned());
        } else if same(name, "to") || same(name, "cc") {
            self.recipients_list.push(value.to_owned());
        }
        proof {
            assert(strs(self.recipients_list@) =~= (if name@ == "to"@ || name@ == "cc"@ {
                strs(old(self).recipients_list@).push(value@)
            } else {
                strs(old(self).recipients_list@)
            }));
            assert forall|fields: Seq<FieldText>| #[trigger] old(self).holds(fields) implies self.holds(
                fields.push((name@, value@)),
            ) by {
                let more = fields.push((name@, value@));
                assert(more.drop_last() =~= fields);
            }
        }
    }
}

/// Whether a header line continues the field before it.
pub open spec fn continues(line: Seq<char>) -> bool {
    line.len() > 0 && (line[0] == ' ' || line[0] == '\t')
}

/// The field that a header line starts: its name in lower case and its value, both
/// without the spaces round them. A line without a colon starts none.
pub open spec fn field_of_line(line: Seq<char>) -> Option<FieldText> {
    let at = position(line, ':');
    if at >= line.len() {
        None
    } else {
        Some(
            (
                lowercase(trimmed(line.subrange(0, at))),
                trimmed(line.subrange(at + 1, line.len() as int)),
            ),
        )
    }
}

/// A field with one more line of value.
pub open spec fn continued(field: Option<FieldText>, line: Seq<char>) -> Option<FieldText> {
    match field {
        Some((name, value)) => Some((name, value.push(' ') + trimmed(line))),
        None => None,
    }
}

/// What each header line that continues no other starts, with its continuations.
pub open spec fn unfolded(ls: Seq<Seq<char>>) -> Seq<Option<FieldText>>
    decreases ls.len(),
{
    if ls.len() == 0 {
        Seq::empty()
    } else {
        let rest = unfolded(ls.drop_last());
        if !continues(ls.last()) {
            rest.push(field_of_line(ls.last()))
        } else if rest.len() == 0 {
            rest
        } else {
            rest.drop_last().push(continued(rest.last(), ls.last()))
        }
    }
}

/// The fields among what header lines start.
pub open spec fn given(fields: Seq<Option<FieldText>>) -> Seq<FieldText>
    decreases fields.len(),
{
    if fields.len() == 0 {
        Seq::empty()
    } else {
        match fields.last() {
            Some(f) => given(fields.drop_last()).push(f),
            None => given(fields.drop_last()),
        }
    }
}

/// The fields of a mail's header lines.
pub open spec fn header_fields(ls: Seq<Seq<char>>) -> Seq<FieldText> {
    given(unfolded(ls))
}

/// The index of the first empty line, or the number of lines.
pub open spec fn first_blank(ls: Seq<Seq<char>>) -> int
    decreases ls.len(),
{
    if ls.len() == 0 || ls[0].len() == 0 {
        0
    } else {
        1 + first_blank(ls.drop_first())
    }
}

/// The lines before the first empty one.
pub open spec fn header_part(ls: Seq<Seq<char>>) -> Seq<Seq<char>> {
    ls.take(first_blank(ls))
}

/// The lines behind the first empty one.
pub open spec fn body_part(ls: Seq<Seq<char>>) -> Seq<Seq<char>> {
    if first_blank(ls) < ls.len() {
        ls.skip(first_blank(ls) + 1)
    } else {
        Seq::empty()
    }
}

/// The first empty line stands where nothing before it is empty.
proof fn lemma_first_blank(ls: Seq<Seq<char>>)
    ensures
        0 <= first_blank(ls) <= ls.len(),
        forall|i: int| 0 <= i < first_blank(ls) ==> (#[trigger] ls[i]).len() > 0,
        first_blank(ls) < ls.len() ==> ls[first_blank(ls)].len() == 0,
    decreases ls.len(),
{
    if ls.len() > 0 && ls[0].len() > 0 {
        lemma_first_blank(ls.drop_first());
        assert forall|i: int| 0 <= i < first_blank(ls) implies (#[trigger] ls[i]).len() > 0 by {
            if i > 0 {
                assert(ls.drop_first()[i - 1] == ls[i]);
            }
        }
    }
}

/// The lines of a mail are its header lines, then, where a line is empty, that line
/// and the body: none is lost and none is added.
pub proof fn law_mail_lines(ls: Seq<Seq<char>>)
    ensures
        first_blank(ls) < ls.len() ==> ls == header_part(ls).push(Seq::empty()) + body_part(ls),
        first_blank(ls) >= ls.len() ==> ls == header_part(ls) && body_part(ls).len() == 0,
        forall|i: int| 0 <= i < header_part(ls).len() ==> (#[trigger] header_part(ls)[i]).len() > 0,
{
    lemma_first_blank(ls);
    if first_blank(ls) < ls.len() {
        assert(ls[first_blank(ls)] =~= Seq::empty());
        assert(ls =~= header_part(ls).push(Seq::empty()) + body_part(ls));
    } else {
        assert(ls =~= header_part(ls));
    }
}

/// The symbols that a parser of unified diffs finds in a text.
pub struct DiffSymbols {
    pub modified_functions: Vec<String>,
    pub called_functions: Vec<String>,
    pub modified_types: Vec<String>,
    pub modified_macros: Vec<String>,
}

impl DiffSymbols {
    /// All of them, kind by kind.
    pub open spec fn all(self) -> Seq<Seq<char>> {
        strs(self.modified_functions@) + strs(self.called_functions@) + strs(self.modified_types@)
            + strs(self.modified_macros@)
    }
}

/// Whether a line is a header of a unified diff that starts in the first column.
pub open spec fn is_diff_marker(line: Seq<char>) -> bool {
    occurs_at(line, "--- a/"@, 0) || occurs_at(line, "+++ b/"@, 0) || occurs_at(
        line,
        "diff --git"@,
        0,
    )
}

/// Whether a text holds a unified diff that is no quotation.
pub open spec fn has_diff(body: Seq<char>) -> bool {
    exists|i: int| 0 <= i < lines(body).len() && is_diff_marker(#[trigger] lines(body)[i])
}

fn holds_diff(body: &str) -> (r: bool)
    ensures
        r == has_diff(body@),
{
    let ls = lines_of(body);
    let mut i: usize = 0;
    while i < ls.len()
        invariant
            i <= ls@.len(),
            strs(ls@) == lines(body@),
            forall|j: int| 0 <= j < i ==> !is_diff_marker(#[trigger] strs(ls@)[j]),
        decreases ls@.len() - i,
    {
        let line = ls[i].as_str();
        if starts_with(line, "--- a/") || starts_with(line, "+++ b/") || starts_with(
            line,
            "diff --git",
        ) {
            assert(is_diff_marker(strs(ls@)[i as int]));
            return true;
        }
        i += 1;
    }
    false
}

/// Whether a list is what a body yields when the diff parser answers `parsed`: each
/// symbol once, in ascending order; nothing where the parser failed or where the
/// body holds no diff.
pub open spec fn symbols_of_body(
    r: Seq<Seq<char>>,
    body: Seq<char>,
    parsed: Option<DiffSymbols>,
) -> bool {
    if has_diff(body) && parsed is Some {
        sorted_listing(r, parsed->0.all())
    } else {
        r.len() == 0
    }
}

/// All symbols that a diff parser found, each once, in ascending order.
pub fn collect_symbols(parsed: DiffSymbols) -> (r: Vec<String>)
    ensures
        sorted_listing(strs(r@), parsed.all()),
{
    let DiffSymbols { modified_functions, called_functions, modified_types, modified_macros } =
        parsed;
    let mut all = modified_functions;
    let mut called = called_functions;
    let mut types = modified_types;
    let mut macros = modified_macros;
    all.append(&mut called);
    all.append(&mut types);
    all.append(&mut macros);
    proof {
        assert(strs(all@) =~= parsed.all());
    }
    sorted_distinct(all)
}

/// The symbols that the diffs in a mail's body touch. The parser is asked only
/// where a line of the body starts a diff in its first column.
pub fn extract_symbols_from_email_body<F: Fn(&String) -> Option<DiffSymbols>>(
    body: &String,
    parse_unified_diff: &F,
) -> (r: Vec<String>)
    requires
        parse_unified_diff.requires((body,)),
    ensures
        !has_diff(body@) ==> r@.len() == 0,
        has_diff(body@) ==> exists|parsed: Option<DiffSymbols>|
            #![trigger symbols_of_body(strs(r@), body@, parsed)]
            parse_unified_diff.ensures((body,), parsed) && symbols_of_body(
                strs(r@),
                body@,
                parsed,
            ),
{
    if !holds_diff(body.as_str()) {
        return Vec::new();
    }
    let parsed = parse_unified_diff(body);
    let ghost answer = parsed;
    let r: Vec<String> = match parsed {
        Some(found) => collect_symbols(found),
        None => Vec::new(),
    };
    assert(symbols_of_body(strs(r@), body@, answer));
    r
}

/// Whether a mail is what a text gives, apart from its symbols.
pub open spec fn mail_of_text(mail: LoreEmailInfo, commit_sha: Seq<char>, text: Seq<char>) -> bool {
    let fields = header_fields(header_part(lines(text)));
    &&& mail.git_commit_sha@ == commit_sha
    &&& mail.from@ == last_text(fields, "from"@)
    &&& mail.date@ == last_text(fields, "date"@)
    &&& mail.message_id@ == last_text(fields, "message-id"@)
    &&& opt_view(mail.in_reply_to) == last_value(fields, "in-reply-to"@)
    &&& mail.subject@ == last_text(fields, "subject"@)
    &&& opt_view(mail.references) == last_value(fields, "references"@)
    &&& mail.recipients@ == joined(recipient_values(fields), ", "@)
    &&& mail.headers@ == joined(header_part(lines(text)), "\n"@)
    &&& mail.body@ == joined(body_part(lines(text)), "\n"@)
}

fn line_continues(line: &str) -> (r: bool)
    ensures
        r == continues(line@),
{
    let cs = chars_of(line);
    cs.len() > 0 && (cs[0] == ' ' || cs[0] == '\t')
}

fn line_field(line: &str) -> (r: Option<(String, String)>)
    ensures
        match r {
            Some((name, value)) => field_of_line(line@) == Some((name@, value@)),
            None => field_of_line(line@) is None,
        },
{
    let cs = chars_of(line);
    proof {
        lemma_position(cs@, ':');
    }
    match find_char(&cs, ':') {
        None => None,
        Some(at) => {
            let n: usize = cs.len();
            let name = trim_range(&cs, 0, at).as_str().to_lowercase();
            let value = trim_range(&cs, at + 1, n);
            Some((name, value))
        },
    }
}

/// What a reader of header lines holds: the fields that are complete, and the one
/// that the next line may continue.
spec fn reads(
    headers: EmailHeaders,
    current: Option<(String, String)>,
    ls: Seq<Seq<char>>,
) -> bool {
    let us = unfolded(ls);
    match current {
        Some((name, value)) => us.len() > 0 && us.last() == Some((name@, value@)) && headers.holds(
            given(us.drop_last()),
        ),
        None => headers.holds(given(us)) && (us.len() == 0 || us.last() is None),
    }
}

fn read_header_line(
    headers: &mut EmailHeaders,
    current: &mut Option<(String, String)>,
    line: &str,
    Ghost(before): Ghost<Seq<Seq<char>>>,
)
    requires
        reads(*old(headers), *old(current), before),
    ensures
        reads(*final(headers), *final(current), before.push(line@)),
{
    proof {
        assert(before.push(line@).drop_last() =~= before);
    }
    let ghost us = unfolded(before);
    let ghost now = unfolded(before.push(line@));
    if line_continues(line) {
        if let Some((name, value)) = current.take() {
            let mut longer = value;
            longer.push(' ');
            longer.append(trim(line).as_str());
            proof {
                assert(now.drop_last() =~= us.drop_last());
            }
            *current = Some((name, longer));
        } else {
            proof {
                if us.len() > 0 {
                    assert(now.drop_last() =~= us.drop_last());
                }
            }
        }
    } else {
        proof {
            assert(now.drop_last() =~= us);
        }
        flush(headers, current, Ghost(before));
        *current = line_field(line);
    }
}

fn flush(
    headers: &mut EmailHeaders,
    current: &mut Option<(String, String)>,
    Ghost(before): Ghost<Seq<Seq<char>>>,
)
    requires
        reads(*old(headers), *old(current), before),
    ensures
        final(headers).holds(header_fields(before)),
        *final(current) is None,
{
    if let Some((name, value)) = current.take() {
        headers.process_header(name.as_str(), value.as_str());
    }
}

/// Reads a mail; its symbols are left empty.
pub fn parse_email_text(commit_sha: &str, text: &str) -> (r: LoreEmailInfo)
    ensures
        mail_of_text(r, commit_sha@, text@),
        r.symbols@.len() == 0,
        exists|hs: Seq<Seq<char>>, bs: Seq<Seq<char>>|
            #![trigger joined(hs, "\n"@), joined(bs, "\n"@)]
            {
                &&& r.headers@ == joined(hs, "\n"@)
                &&& r.body@ == joined(bs, "\n"@)
                &&& forall|i: int| 0 <= i < hs.len() ==> (#[trigger] hs[i]).len() > 0
                &&& lines(text@) == hs + seq![Seq::<char>::empty()] + bs || (bs.len() == 0 && lines(
                    text@,
                ) == hs)
            },
{
    let ls = lines_of(text);
    let ghost all = lines(text@);
    let mut headers = EmailHeaders::new();
    let mut current: Option<(String, String)> = None;
    let mut header_lines: Vec<String> = Vec::new();
    let mut i: usize = 0;
    proof {
        lemma_first_blank(all);
        assert(strs(header_lines@) =~= all.take(0));
    }
    while i < ls.len() && !ls[i].as_str().is_empty()
        invariant
            i <= ls@.len(),
            strs(ls@) == all,
            strs(header_lines@) == all.take(i as int),
            reads(headers, current, all.take(i as int)),
            forall|j: int| 0 <= j < i ==> (#[trigger] all[j]).len() > 0,
        decreases ls@.len() - i,
    {
        proof {
            assert(all.take(i + 1) =~= all.take(i as int).push(ls@[i as int]@));
            assert(all[i as int] == ls@[i as int]@);
        }
        read_header_line(&mut headers, &mut current, ls[i].as_str(), Ghost(all.take(i as int)));
        header_lines.push(ls[i].clone());
        proof {
            assert(strs(header_lines@) =~= all.take(i + 1));
        }
        i += 1;
    }
    flush(&mut headers, &mut current, Ghost(all.take(i as int)));
    proof {
        assert(i == first_blank(all)) by {
            if i < ls.len() {
                assert(all[i as int].len() == 0);
            }
        }
    }
    let mut body_lines: Vec<String> = Vec::new();
    if i < ls.len() {
        i += 1;
    }
    let ghost start = i as int;
    proof {
        assert(strs(body_lines@) =~= all.subrange(start, start));
    }
    while i < ls.len()
        invariant
            start <= i <= ls@.len(),
            0 <= start,
            strs(ls@) == all,
            strs(body_lines@) == all.subrange(start, i as int),
        decreases ls@.len() - i,
    {
        let ghost before = strs(body_lines@);
        body_lines.push(ls[i].clone());
        proof {
            assert(strs(body_lines@) =~= before.push(strs(ls@)[i as int]));
        }
        i += 1;
        proof {
            assert(strs(body_lines@) =~= all.subrange(start, i as int));
        }
    }
    proof {
        assert(strs(body_lines@) =~= body_part(all));
    }
    let recipients = join(&headers.recipients_list, ", ");
    let header_text = join(&header_lines, "\n");
    let body = join(&body_lines, "\n");
    proof {
        let hs = strs(header_lines@);
        let bs = strs(body_lines@);
        law_mail_lines(all);
        if first_blank(all) < all.len() {
            assert(hs.push(Seq::empty()) + bs =~= hs + seq![Seq::<char>::empty()] + bs);
        }
        assert(header_text@ == joined(hs, "\n"@) && body@ == joined(bs, "\n"@));
    }
    LoreEmailInfo {
        git_commit_sha: commit_sha.to_owned(),
        from: headers.from,
        date: headers.date,
        message_id: headers.message_id,
        in_reply_to: headers.in_reply_to,
        subject: headers.subject,
        references: headers.references,
        recipients,
        headers: header_text,
        body,
        symbols: Vec::new(),
    }
}

/// The header lines of a mail that is read, an empty line and the lines of its body are the
/// lines of the text that it was read from: the mail holds the ones and the others with
/// newlines between them. No header line is empty. Without an empty line all are header
/// lines, and the body is empty.
pub proof fn law_mail_holds_its_lines(mail: LoreEmailInfo, commit_sha: Seq<char>, text: Seq<char>)
    requires
        mail_of_text(mail, commit_sha, text),
    ensures
        mail.git_commit_sha@ == commit_sha,
        exists|hs: Seq<Seq<char>>, bs: Seq<Seq<char>>|
            #![trigger joined(hs, "\n"@), joined(bs, "\n"@)]
            {
                &&& mail.headers@ == joined(hs, "\n"@)
                &&& mail.body@ == joined(bs, "\n"@)
                &&& forall|i: int| 0 <= i < hs.len() ==> (#[trigger] hs[i]).len() > 0
                &&& lines(text) == hs + seq![Seq::<char>::empty()] + bs || (bs.len() == 0 && lines(
                    text,
                ) == hs)
            },
{
    let all = lines(text);
    let hs = header_part(all);
    let bs = body_part(all);
    law_mail_lines(all);
    if first_blank(all) < all.len() {
        assert(hs.push(Seq::empty()) + bs =~= hs + seq![Seq::<char>::empty()] + bs);
    }
    assert(mail.headers@ == joined(hs, "\n"@) && mail.body@ == joined(bs, "\n"@));
}

/// A commit of an archive that holds no mail.
pub struct NoMail {
    pub commit_sha: String,
}

/// Reads the mail that a commit of an archive holds in its file `m`, given the
/// bytes of that file, or `None` where the commit has no such file.
pub fn parse_email_from_commit<F: Fn(&String) -> Option<DiffSymbols>>(
    commit_sha: &str,
    m_file: Option<&Vec<u8>>,
    parse_unified_diff: &F,
) -> (r: Result<LoreEmailInfo, NoMail>)
    requires
        forall|body: &String| parse_unified_diff.requires((body,)),
    ensures
        match r {
            Ok(mail) => {
                &&& m_file is Some
                &&& mail_of_text(mail, commit_sha@, lossy_text(m_file->0@))
                &&& !has_diff(mail.body@) ==> mail.symbols@.len() == 0
                &&& has_diff(mail.body@) ==> exists|parsed: Option<DiffSymbols>|
                    #![trigger symbols_of_body(strs(mail.symbols@), mail.body@, parsed)]
                    parse_unified_diff.ensures((&mail.body,), parsed) && symbols_of_body(
                        strs(mail.symbols@),
                        mail.body@,
                        parsed,
                    )
            },
            Err(e) => m_file is None && e.commit_sha@ == commit_sha@,
        },
{
    match m_file {
        None => Err(NoMail { commit_sha: commit_sha.to_owned() }),
        Some(bytes) => {
            let text = text_from_bytes(bytes);
            let mut mail = parse_email_text(commit_sha, text.as_str());
            let symbols = extract_symbols_from_email_body(&mail.body, parse_unified_diff);
            let ghost body = mail.body;
            mail.symbols = symbols;
            proof {
                assert(mail.body == body);
                if has_diff(body@) {
                    let parsed = choose|parsed: Option<DiffSymbols>|
                        parse_unified_diff.ensures((&body,), parsed)
                            && #[trigger] symbols_of_body(strs(symbols@), body@, parsed);
                    assert(symbols_of_body(strs(mail.symbols@), mail.body@, parsed));
                }
            }
            Ok(mail)
        },
    }
}

/// A diff that is quoted is none: where every line of a body that is not empty starts with
/// a quotation mark, the body holds no diff.
pub proof fn law_quoted_diff_is_no_diff(body: Seq<char>)
    requires
        forall|i: int|
            0 <= i < lines(body).len() ==> (#[trigger] lines(body)[i]).len() == 0 || lines(body)[i][0]
                == '>',
    ensures
        !has_diff(body),
{
    reveal_strlit("--- a/");
    reveal_strlit("+++ b/");
    reveal_strlit("diff --git");
    assert forall|i: int| 0 <= i < lines(body).len() implies !is_diff_marker(
        #[trigger] lines(body)[i],
    ) by {
        let l = lines(body)[i];
        assert("--- a/"@[0] == '-' && "+++ b/"@[0] == '+' && "diff --git"@[0] == 'd');
        if occurs_at(l, "--- a/"@, 0) {
            assert(l.subrange(0, "--- a/"@.len() as int)[0] == l[0]);
        }
        if occurs_at(l, "+++ b/"@, 0) {
            assert(l.subrange(0, "+++ b/"@.len() as int)[0] == l[0]);
        }
        if occurs_at(l, "diff --git"@, 0) {
            assert(l.subrange(0, "diff --git"@.len() as int)[0] == l[0]);
        }
    }
}

/// A mail that is its headers, an empty line and its body, with newlines between the lines
/// and perhaps one at the end, is read as these headers and this body.
pub proof fn law_mail_text(
    mail: LoreEmailInfo,
    commit_sha: Seq<char>,
    headers: Seq<char>,
    body: Seq<char>,
)
    requires
        mail_of_text(mail, commit_sha, headers.push('\n').push('\n') + body),
        headers.len() > 0,
        headers[0] != '\n',
        headers.last() != '\n',
        forall|i: int|
            0 <= i < headers.len() - 1 && #[trigger] headers[i] == '\n' ==> headers[i + 1] != '\n',
        !headers.contains('\r'),
        !body.contains('\r'),
    ensures
        mail.headers@ == headers,
        mail.body@ == (if body.len() > 0 && body.last() == '\n' {
            body.drop_last()
        } else {
            body
        }),
{
    let text = headers.push('\n').push('\n') + body;
    let none = Seq::<char>::empty();
    let hs = lines(headers.push('\n'));
    let bs = lines(body);
    reveal_strlit("\n");
    assert("\n"@ =~= seq!['\n']);
    assert(text =~= headers.push('\n') + (none.push('\n') + body));
    law_lines_split(headers, none.push('\n') + body);
    law_lines(none, body);
    law_full_lines(headers);
    law_lines_joined(body);
    assert(lines(text) =~= hs + (seq![none] + bs));
    let all = lines(text);
    lemma_first_blank(all);
    assert(first_blank(all) == hs.len()) by {
        assert(all[hs.len() as int] == none);
        if first_blank(all) < hs.len() {
            assert(all[first_blank(all)] == hs[first_blank(all)]);
        }
    }
    assert(header_part(all) =~= hs);
    assert(body_part(all) =~= bs);
}

/// The value of the last field with a name is that of a field that has it with none behind
/// that has it too. There is none exactly where no field has the name.
pub proof fn law_last_value(fields: Seq<FieldText>, name: Seq<char>)
    ensures
        forall|i: int|
            0 <= i < fields.len() && (#[trigger] fields[i]).0 == name && (forall|j: int|
                i < j < fields.len() ==> (#[trigger] fields[j]).0 != name) ==> last_value(fields, name)
                == Some(fields[i].1) && last_text(fields, name) == fields[i].1,
        (forall|i: int| 0 <= i < fields.len() ==> (#[trigger] fields[i]).0 != name) ==> last_value(
            fields,
            name,
        ) is None && last_text(fields, name).len() == 0,
    decreases fields.len(),
{
    if fields.len() > 0 {
        let fewer = fields.drop_last();
        law_last_value(fewer, name);
        assert(fields[fields.len() - 1] == fields.last());
        if fields.last().0 != name {
            assert forall|i: int|
                0 <= i < fields.len() && (#[trigger] fields[i]).0 == name && (forall|j: int|
                    i < j < fields.len() ==> (#[trigger] fields[j]).0 != name) implies last_value(
                fields,
                name,
            ) == Some(fields[i].1) && last_text(fields, name) == fields[i].1 by {
                assert(fewer[i] == fields[i]);
                assert forall|j: int| i < j < fewer.len() implies (#[trigger] fewer[j]).0 != name by {
                    assert(fields[j].0 != name);
                }
            }
            if forall|i: int| 0 <= i < fields.len() ==> (#[trigger] fields[i]).0 != name {
                assert forall|i: int| 0 <= i < fewer.len() implies (#[trigger] fewer[i]).0 != name by {
                    assert(fields[i].0 != name);
                }
            }
        } else {
            assert forall|i: int|
                0 <= i < fields.len() && (#[trigger] fields[i]).0 == name && (forall|j: int|
                    i < j < fields.len() ==> (#[trigger] fields[j]).0 != name) implies last_value(
                fields,
                name,
            ) == Some(fields[i].1) && last_text(fields, name) == fields[i].1 by {
                if i < fields.len() - 1 {
                    assert(fields[fields.len() - 1].0 != name);
                }
            }
        }
    }
}

/// The recipients are the values of the fields named `to` or `cc`, in the order of the
/// fields.
pub proof fn law_recipients(fields: Seq<FieldText>)
    ensures
        recipient_values(fields) == fields.filter(
            |f: FieldText| f.0 == "to"@ || f.0 == "cc"@,
        ).map_values(|f: FieldText| f.1),
    decreases fields.len(),
{
    reveal(Seq::filter);
    let wanted = |f: FieldText| f.0 == "to"@ || f.0 == "cc"@;
    if fields.len() > 0 {
        law_recipients(fields.drop_last());
    }
    assert(recipient_values(fields) =~= fields.filter(wanted).map_values(|f: FieldText| f.1));
}

/// What a mail holds of its header fields, field by field.
pub proof fn law_mail_fields(
    mail: LoreEmailInfo,
    commit_sha: Seq<char>,
    text: Seq<char>,
    head: Seq<Seq<char>>,
    rest: Seq<Seq<char>>,
)
    requires
        mail_of_text(mail, commit_sha, text),
        lines(text) == head + rest,
        forall|i: int| 0 <= i < head.len() ==> (#[trigger] head[i]).len() > 0,
        rest.len() > 0 ==> rest[0].len() == 0,
    ensures
        ({
            let fields = header_fields(head);
            &&& mail.from@ == last_text(fields, "from"@)
            &&& mail.date@ == last_text(fields, "date"@)
            &&& mail.message_id@ == last_text(fields, "message-id"@)
            &&& mail.subject@ == last_text(fields, "subject"@)
            &&& opt_view(mail.in_reply_to) == last_value(fields, "in-reply-to"@)
            &&& opt_view(mail.references) == last_value(fields, "references"@)
            &&& mail.recipients@ == joined(recipient_values(fields), ", "@)
        }),
{
    let all = lines(text);
    lemma_first_blank(all);
    assert(first_blank(all) == head.len()) by {
        if first_blank(all) < head.len() {
            assert(all[first_blank(all)] == head[first_blank(all)]);
        }
        if rest.len() > 0 {
            assert(all[head.len() as int] == rest[0]);
        }
    }
    assert(header_part(all) =~= head);
}

proof fn lemma_given_lists(a: Seq<Option<FieldText>>, b: Seq<Option<FieldText>>)
    ensures
        given(a + b) == given(a) + given(b),
    decreases b.len(),
{
    if b.len() == 0 {
        assert(a + b =~= a);
        assert(given(a) + given(b) =~= given(a));
    } else {
        lemma_given_lists(a, b.drop_last());
        assert((a + b).drop_last() =~= a + b.drop_last());
        assert(given(a + b) =~= given(a) + given(b));
    }
}

proof fn lemma_unfolded_lists(a: Seq<Seq<char>>, b: Seq<Seq<char>>)
    requires
        b.len() > 0 ==> !continues(b[0]),
    ensures
        unfolded(a + b) == unfolded(a) + unfolded(b),
        b.len() > 0 ==> unfolded(b).len() > 0,
    decreases b.len(),
{
    if b.len() == 0 {
        assert(a + b =~= a);
        assert(unfolded(a) + unfolded(b) =~= unfolded(a));
    } else {
        lemma_unfolded_lists(a, b.drop_last());
        assert((a + b).drop_last() =~= a + b.drop_last());
        if b.len() == 1 {
            assert(unfolded(b.drop_last()) =~= Seq::empty());
        }
        assert(unfolded(a + b) =~= unfolded(a) + unfolded(b));
    }
}

/// Header lines are read field by field: where the lines behind a place do not start with a
/// space or a tab, the fields of all lines are those before the place and those behind it.
pub proof fn law_header_lines_split(a: Seq<Seq<char>>, b: Seq<Seq<char>>)
    requires
        b.len() > 0 ==> b[0].len() == 0 || (b[0][0] != ' ' && b[0][0] != '\t'),
    ensures
        header_fields(a + b) == header_fields(a) + header_fields(b),
{
    lemma_unfolded_lists(a, b);
    lemma_given_lists(unfolded(a), unfolded(b));
}

/// A header line with a colon, and the lines behind it that start with a space or a tab, are
/// one field. Its name is what stands before the first colon, trimmed and in lower case; its
/// value is what stands behind, and what the other lines hold, each trimmed, with spaces
/// between them. A header line without a colon is no field, whatever continues it.
pub proof fn law_header_field(name: Seq<char>, value: Seq<char>, more: Seq<Seq<char>>)
    requires
        !name.contains(':'),
        name.len() > 0 ==> name[0] != ' ' && name[0] != '\t',
        forall|i: int|
            0 <= i < more.len() ==> (#[trigger] more[i]).len() > 0 && (more[i][0] == ' ' || more[i][0]
                == '\t'),
    ensures
        header_fields(seq![name.push(':') + value] + more) == seq![
            (
                lowercase(trimmed(name)),
                joined(
                    seq![trimmed(value)] + more.map_values(|line: Seq<char>| trimmed(line)),
                    seq![' '],
                ),
            ),
        ],
        header_fields(seq![name] + more).len() == 0,
        header_fields(more).len() == 0,
    decreases more.len(),
{
    let line = name.push(':') + value;
    let trim_all = |line: Seq<char>| trimmed(line);
    let values = seq![trimmed(value)] + more.map_values(trim_all);
    if more.len() == 0 {
        lemma_position(line, ':');
        lemma_position(name, ':');
        assert(line[name.len() as int] == ':');
        assert(position(line, ':') == name.len()) by {
            if position(line, ':') < name.len() {
                assert(name[position(line, ':')] == ':');
            }
        }
        if position(name, ':') < name.len() {
            assert(name[position(name, ':')] == ':');
        }
        assert(line.subrange(0, name.len() as int) =~= name);
        assert(line.subrange((name.len() + 1) as int, line.len() as int) =~= value);
        assert(line[0] == if name.len() > 0 {
            name[0]
        } else {
            ':'
        });
        let one = seq![line] + more;
        let bare = seq![name] + more;
        assert(one.drop_last() =~= Seq::empty());
        assert(bare.drop_last() =~= Seq::empty());
        assert(one.last() == line && bare.last() == name);
        let field = (lowercase(trimmed(name)), trimmed(value));
        assert(unfolded(Seq::<Seq<char>>::empty()).len() == 0);
        assert(field_of_line(line) == Some(field));
        assert(!continues(line));
        assert(unfolded(one) =~= seq![Some(field)]);
        assert(unfolded(bare) =~= seq![None::<FieldText>]);
        assert(seq![Some(field)].drop_last() =~= Seq::empty());
        assert(seq![None::<FieldText>].drop_last() =~= Seq::empty());
        assert(given(Seq::<Option<FieldText>>::empty()).len() == 0);
        assert(given(seq![Some(field)]) =~= seq![field]);
        assert(values =~= seq![trimmed(value)]);
    } else {
        let fewer = more.drop_last();
        assert forall|i: int| 0 <= i < fewer.len() implies (#[trigger] fewer[i]).len() > 0 && (fewer[i][0]
            == ' ' || fewer[i][0] == '\t') by {
            assert(fewer[i] == more[i]);
        }
        law_header_field(name, value, fewer);
        let last = more.last();
        assert(more[more.len() - 1] == last);
        lemma_unfolded_one(line, fewer);
        lemma_unfolded_one(name, fewer);
        lemma_unfolded_none(fewer);
        assert((seq![line] + more).drop_last() =~= seq![line] + fewer);
        assert((seq![name] + more).drop_last() =~= seq![name] + fewer);
        let u = unfolded(seq![line] + fewer);
        let v = unfolded(seq![name] + fewer);
        assert(u.drop_last() =~= Seq::empty());
        assert(v.drop_last() =~= Seq::empty());
        assert(u[0] is Some) by {
            assert(given(u.drop_last()).len() == 0);
        }
        assert(given(u) =~= seq![u[0]->0]);
        assert(given(u)[0] == u[0]->0);
        let before = seq![trimmed(value)] + fewer.map_values(trim_all);
        assert(values.drop_last() =~= before);
        assert(values.last() == trimmed(last));
        let had = u[0]->0;
        let field = (had.0, had.1.push(' ') + trimmed(last));
        assert(unfolded(seq![line] + more) =~= seq![Some(field)]);
        assert(seq![Some(field)].drop_last() =~= Seq::empty());
        assert(given(seq![Some(field)]) =~= seq![field]);
        assert(had.1 == joined(before, seq![' ']));
        assert(joined(values, seq![' ']) == joined(values.drop_last(), seq![' ']) + seq![' ']
            + values.last());
        assert(had.1.push(' ') + trimmed(last) =~= joined(values, seq![' ']));
        assert(v[0] is None) by {
            assert(given(v.drop_last()).len() == 0);
        }
        assert(unfolded(seq![name] + more) =~= seq![None::<FieldText>]);
        assert(seq![None::<FieldText>].drop_last() =~= Seq::empty());
    }
    lemma_unfolded_none(more);
}

proof fn lemma_unfolded_one(line: Seq<char>, more: Seq<Seq<char>>)
    requires
        !continues(line),
        forall|i: int| 0 <= i < more.len() ==> continues(#[trigger] more[i]),
    ensures
        unfolded(seq![line] + more).len() == 1,
    decreases more.len(),
{
    let all = seq![line] + more;
    if more.len() == 0 {
        assert(all.drop_last() =~= Seq::empty());
        assert(all.last() == line);
        assert(unfolded(Seq::<Seq<char>>::empty()).len() == 0);
    } else {
        lemma_unfolded_one(line, more.drop_last());
        assert(all.drop_last() =~= seq![line] + more.drop_last());
        assert(all.last() == more[more.len() - 1]);
    }
}

proof fn lemma_unfolded_none(more: Seq<Seq<char>>)
    requires
        forall|i: int| 0 <= i < more.len() ==> continues(#[trigger] more[i]),
    ensures
        unfolded(more).len() == 0,
    decreases more.len(),
{
    if more.len() > 0 {
        lemma_unfolded_none(more.drop_last());
        assert(more.last() == more[more.len() - 1]);
    }
}

/// A body holds a diff exactly where one of its lines starts, in its first column, with one of
/// the three marks of a unified diff.
pub proof fn law_has_diff(body: Seq<char>)
    ensures
        has_diff(body) <==> exists|i: int|
            0 <= i < lines(body).len() && ({
                let line = #[trigger] lines(body)[i];
                ||| line.len() >= 6 && line.take(6) == seq!['-', '-', '-', ' ', 'a', '/']
                ||| line.len() >= 6 && line.take(6) == seq!['+', '+', '+', ' ', 'b', '/']
                ||| line.len() >= 10 && line.take(10) == seq![
                    'd',
                    'i',
                    'f',
                    'f',
                    ' ',
                    '-',
                    '-',
                    'g',
                    'i',
                    't',
                ]
            }),
{
    reveal_strlit("--- a/");
    reveal_strlit("+++ b/");
    reveal_strlit("diff --git");
    assert("--- a/"@ =~= seq!['-', '-', '-', ' ', 'a', '/']);
    assert("+++ b/"@ =~= seq!['+', '+', '+', ' ', 'b', '/']);
    assert("diff --git"@ =~= seq!['d', 'i', 'f', 'f', ' ', '-', '-', 'g', 'i', 't']);
    assert forall|line: Seq<char>| #[trigger] is_diff_marker(line) <==> ({
        ||| line.len() >= 6 && line.take(6) == "--- a/"@
        ||| line.len() >= 6 && line.take(6) == "+++ b/"@
        ||| line.len() >= 10 && line.take(10) == "diff --git"@
    }) by {
        assert(line.subrange(0, 6) =~= line.take(6));
        assert(line.subrange(0, 10) =~= line.take(10));
    }
    if has_diff(body) {
        let i = choose|i: int| 0 <= i < lines(body).len() && is_diff_marker(#[trigger] lines(body)[i]);
        assert(is_diff_marker(lines(body)[i]));
    }
    if exists|i: int|
        0 <= i < lines(body).len() && ({
            let line = #[trigger] lines(body)[i];
            ||| line.len() >= 6 && line.take(6) == "--- a/"@
            ||| line.len() >= 6 && line.take(6) == "+++ b/"@
            ||| line.len() >= 10 && line.take(10) == "diff --git"@
        }) {
        let i = choose|i: int|
            0 <= i < lines(body).len() && ({
                let line = #[trigger] lines(body)[i];
                ||| line.len() >= 6 && line.take(6) == "--- a/"@
                ||| line.len() >= 6 && line.take(6) == "+++ b/"@
                ||| line.len() >= 10 && line.take(10) == "diff --git"@
            });
        assert(is_diff_marker(lines(body)[i]));
    }
}

/// The symbols of a mail: where its body holds a diff and the parser answered, exactly those
/// that the parser found of any of the four kinds, in ascending order and each once; else none.
pub proof fn law_symbols_of_body(
    r: Seq<Seq<char>>,
    body: Seq<char>,
    parsed: Option<DiffSymbols>,
    x: Seq<char>,
)
    requires
        symbols_of_body(r, body, parsed),
    ensures
        !has_diff(body) || parsed is None ==> r.len() == 0,
        has_diff(body) && parsed is Some ==> sorted_listing(r, parsed->0.all()),
        has_diff(body) && parsed is Some ==> (r.contains(x) <==> strs(
            parsed->0.modified_functions@,
        ).contains(x) || strs(parsed->0.called_functions@).contains(x) || strs(
            parsed->0.modified_types@,
        ).contains(x) || strs(parsed->0.modified_macros@).contains(x)),
{
    if parsed is Some {
        law_diff_symbols(parsed->0, x);
    }
}

/// What a parser found is all that it found of each of the four kinds.
pub proof fn law_diff_symbols(d: DiffSymbols, x: Seq<char>)
    ensures
        d.all().contains(x) <==> strs(d.modified_functions@).contains(x) || strs(
            d.called_functions@,
        ).contains(x) || strs(d.modified_types@).contains(x) || strs(d.modified_macros@).contains(x),
{
    let a = strs(d.modified_functions@);
    let b = strs(d.called_functions@);
    let c = strs(d.modified_types@);
    let e = strs(d.modified_macros@);
    let all = d.all();
    if all.contains(x) {
        let k = choose|k: int| 0 <= k < all.len() && all[k] == x;
        if k < a.len() {
            assert(a[k] == x);
        } else if k < a.len() + b.len() {
            assert(b[k - a.len()] == x);
        } else if k < a.len() + b.len() + c.len() {
            assert(c[k - a.len() - b.len()] == x);
        } else {
            assert(e[k - a.len() - b.len() - c.len()] == x);
        }
    }
    if a.contains(x) {
        let k = choose|k: int| 0 <= k < a.len() && a[k] == x;
        assert(all[k] == x);
    }
    if b.contains(x) {
        let k = choose|k: int| 0 <= k < b.len() && b[k] == x;
        assert(all[a.len() + k] == x);
    }
    if c.contains(x) {
        let k = choose|k: int| 0 <= k < c.len() && c[k] == x;
        assert(all[a.len() + b.len() + k] == x);
    }
    if e.contains(x) {
        let k = choose|k: int| 0 <= k < e.len() && e[k] == x;
        assert(all[a.len() + b.len() + c.len() + k] == x);
    }
}

/// The text of an optional string is there exactly where the string is, and is its own.
pub proof fn law_opt_view(s: Option<String>)
    ensures
        s is None <==> opt_view(s) is None,
        s matches Some(t) ==> opt_view(s) == Some(t@),
{
}

} // verus!
