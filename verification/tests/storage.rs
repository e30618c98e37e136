use semcode::commits::GitCommitInfo;
use semcode::database::{DatabaseManager, SchemaManager, OPTIMAL_BATCH_SIZE};
use semcode::dates::Window;
use semcode::signatures::Cell;
use semcode::email::LoreEmailInfo;
use semcode::health::{HealthIssue, IndexInfo, TableStats};
use semcode::history::{row_of_commit, CommitColumn, CommitRow};
use semcode::lore::{read_mail, row_of_mail, LoreRow};
use semcode::lore_search::{fts_pattern, FieldCandidates};
use semcode::schema::ColumnKind;
use semcode::tables::{main_table_names, shard_names};
use semcode::tags::parse_commit_message_tags;
use semcode::upkeep::{CompactOutcome, ExistingIndex, Recreation, TableLayout};

fn strings(items: &[&str]) -> Vec<String> {
    items.iter().map(|s| s.to_string()).collect()
}

fn db() -> DatabaseManager {
    DatabaseManager::new("/repo".to_string())
}

fn commit(sha: &str, message: &str, diff: &str, symbols: &[&str]) -> GitCommitInfo {
    GitCommitInfo {
        git_sha: sha.to_string(),
        parent_sha: strings(&["p\"1", "p2"]),
        author: "A <a@x>".to_string(),
        subject: "s".to_string(),
        message: message.to_string(),
        tags: parse_commit_message_tags("Zeta: 1\nAlpha: 2\nZeta: \u{e9}\"3"),
        diff: diff.to_string(),
        symbols: strings(symbols),
        files: strings(&["f\\.c", "\u{1F600}"]),
    }
}

#[test]
fn stored_commits_read_back() {
    let rows = db().insert_git_commits(vec![commit("1", "m", "d", &["x", "y\n"])]);
    assert_eq!(rows.len(), 1);
    assert_eq!(rows[0].parent_sha, "[\"p\\\"1\",\"p2\"]");
    assert_eq!(rows[0].tags, "{\"Alpha\":[\"2\"],\"Zeta\":[\"1\",\"\u{e9}\\\"3\"]}");
    let read = db().get_all_git_commits(rows).ok().unwrap();
    let want = commit("1", "m", "d", &["x", "y\n"]);
    assert_eq!(read[0].git_sha, want.git_sha);
    assert_eq!(read[0].parent_sha, want.parent_sha);
    assert_eq!(read[0].author, want.author);
    assert_eq!(read[0].subject, want.subject);
    assert_eq!(read[0].message, want.message);
    assert_eq!(read[0].diff, want.diff);
    assert_eq!(read[0].symbols, want.symbols);
    assert_eq!(read[0].files, want.files);
    assert_eq!(read[0].tags.get("Zeta"), want.tags.get("Zeta"));
    assert_eq!(read[0].tags.get("Alpha"), want.tags.get("Alpha"));
    assert_eq!(read[0].tags.entries.len(), 2);
}

fn bad_row(column: CommitColumn) -> CommitRow {
    let mut row = row_of_commit(commit("1", "m", "d", &["x"]));
    match column {
        CommitColumn::ParentSha => row.parent_sha = "x".to_string(),
        CommitColumn::Tags => row.tags = "[]".to_string(),
        CommitColumn::Symbols => row.symbols = "{}".to_string(),
        CommitColumn::Files => row.files = "[1]".to_string(),
    }
    row
}

#[test]
fn unreadable_columns_are_errors() {
    for column in [
        CommitColumn::ParentSha,
        CommitColumn::Tags,
        CommitColumn::Symbols,
        CommitColumn::Files,
    ] {
        let good = row_of_commit(commit("0", "m", "d", &[]));
        match db().get_all_git_commits(vec![good, bad_row(column)]) {
            Err(e) => {
                assert!(e.column == column);
                assert!(!e.reason.is_empty());
            }
            Ok(_) => panic!("unreadable"),
        }
        match db().get_git_commit_by_sha(vec![bad_row(column)]) {
            Err(e) => assert!(e.column == column),
            Ok(_) => panic!("unreadable"),
        }
    }
}

#[test]
fn same_commits_give_the_same_rows() {
    let commits = || vec![commit("1", "m", "d", &["x"]), commit("2", "n", "e", &[])];
    let rows = db().insert_git_commits(commits());
    let again = db().insert_git_commits(commits());
    for (a, b) in rows.iter().zip(again.iter()) {
        assert_eq!((&a.git_sha, &a.parent_sha, &a.tags), (&b.git_sha, &b.parent_sha, &b.tags));
        assert_eq!((&a.symbols, &a.files, &a.diff), (&b.symbols, &b.files, &b.diff));
    }
    assert!(db().insert_git_commits(Vec::new()).is_empty());
}

#[test]
fn duplicate_tag_names_in_json_keep_the_last() {
    let mut row = row_of_commit(commit("0", "m", "d", &[]));
    row.tags = "{\"A\":[\"1\"],\"A\":[\"2\"]}".to_string();
    let c = db().get_git_commit_by_sha(vec![row]).ok().unwrap().unwrap();
    assert_eq!(c.tags.get("A"), Some(&strings(&["2"])));
}

#[test]
fn one_commit_is_found() {
    assert!(db().get_git_commit_by_sha(Vec::new()).ok().unwrap().is_none());
    let rows = db().insert_git_commits(vec![
        commit("1", "m", "d", &[]),
        commit("2", "m", "d", &[]),
    ]);
    assert_eq!(db().get_git_commit_by_sha(rows).ok().unwrap().unwrap().git_sha, "1");
    assert_eq!(db().git_commit_filter("a'b"), "git_sha = 'a''b'");
    assert_eq!(
        db().commits_chunk_filter(&strings(&["a", "b'"])),
        "git_sha IN ('a', 'b''')"
    );
}

fn found(patterns: &[&str], symbols: &[&str]) -> Vec<String> {
    let rows = db().insert_git_commits(vec![
        commit("1", "Fix the LEAK", "free(p)", &["alloc_page", "free_page"]),
        commit("2", "other", "a leak in the diff", &["free_list"]),
        commit("3", "other", "nothing", &[]),
    ]);
    db().query_commits_chunk_filtered(rows, &strings(patterns), &strings(symbols))
        .ok()
        .unwrap()
        .into_iter()
        .map(|c| c.git_sha)
        .collect()
}

#[test]
fn commits_match_all_patterns() {
    assert_eq!(found(&[], &[]), strings(&["1", "2", "3"]));
    assert_eq!(found(&["leak"], &[]), strings(&["1", "2"]));
    assert_eq!(found(&["leak", "free\\("], &[]), strings(&["1"]));
    assert_eq!(found(&[], &["^FREE_"]), strings(&["1", "2"]));
    assert_eq!(found(&[], &["^free_", "^alloc"]), strings(&["1"]));
    assert_eq!(found(&["leak"], &["list"]), strings(&["2"]));
    assert_eq!(found(&["(", "leak"], &["["]), strings(&["1", "2"]));
}

fn mail(id: &str, subject: &str, date: &str) -> LoreEmailInfo {
    LoreEmailInfo {
        git_commit_sha: "c".to_string(),
        from: "A <a@x>".to_string(),
        date: date.to_string(),
        message_id: id.to_string(),
        in_reply_to: None,
        subject: subject.to_string(),
        references: Some("<r>".to_string()),
        recipients: "b@x".to_string(),
        headers: "h".to_string(),
        body: "body".to_string(),
        symbols: strings(&["s\"1", "s2"]),
    }
}

const JAN: &str = "Mon, 1 Jan 2024 00:00:00 +0000";
const FEB: &str = "Thu, 1 Feb 2024 00:00:00 +0000";
const MAR: &str = "Fri, 1 Mar 2024 00:00:00 +0000";

fn rows() -> Vec<LoreRow> {
    db().insert_lore_emails(&vec![
        mail("<1>", "[PATCH] mm: fix", JAN),
        mail("<2>", "Re: [PATCH] mm: fix", FEB),
        mail("<3>", "[PATCH] net", MAR),
        mail("<4>", "[PATCH] mm undated", "yesterday"),
    ])
}

fn ids(mails: &[LoreEmailInfo]) -> Vec<&str> {
    mails.iter().map(|m| m.message_id.as_str()).collect()
}

#[test]
fn stored_mail_reads_back() {
    let m = mail("<1>", "s", JAN);
    let row = row_of_mail(&m);
    assert_eq!(row.symbols, "[\"s\\\"1\",\"s2\"]");
    let read = read_mail(row);
    assert_eq!(read.git_commit_sha, m.git_commit_sha);
    assert_eq!(read.from, m.from);
    assert_eq!(read.date, m.date);
    assert_eq!(read.message_id, m.message_id);
    assert_eq!(read.in_reply_to, m.in_reply_to);
    assert_eq!(read.subject, m.subject);
    assert_eq!(read.references, m.references);
    assert_eq!(read.recipients, m.recipients);
    assert_eq!(read.headers, m.headers);
    assert_eq!(read.body, m.body);
    assert_eq!(read.symbols, m.symbols);
}

#[test]
fn unreadable_symbols_are_none() {
    let mut row = row_of_mail(&mail("<1>", "s", JAN));
    row.symbols = "?".to_string();
    assert!(read_mail(row).symbols.is_empty());
    assert_eq!(ids(&db().get_all_lore_emails(rows())), vec!["<1>", "<2>", "<3>", "<4>"]);
    assert_eq!(db().get_lore_emails_by_commit(rows()).len(), 4);
}

#[test]
fn mail_filters() {
    assert_eq!(db().lore_commit_filter("a'"), "git_commit_sha = 'a'''");
    assert_eq!(db().lore_message_filter("1@x"), "message_id = '<1@x>'");
    assert_eq!(db().lore_message_filter("<1@x>"), "message_id = '<1@x>'");
    assert_eq!(db().lore_message_filter("<1@x"), "message_id = '<<1@x>'");
    let (replies, references) = db().lore_reference_filters("<a\\b'c>");
    assert_eq!(replies, "in_reply_to = '<a\\b''c>'");
    assert_eq!(references, "regexp_like(`references`, '<a\\\\b''c>')");
    let (replies, references) = db().lore_reference_filters("<a.b+1@x>");
    assert_eq!(replies, "in_reply_to = '<a.b+1@x>'");
    assert_eq!(references, "regexp_like(`references`, '<a\\.b\\+1@x>')");
    assert_eq!(db().lore_subject_filter("it's"), "subject LIKE '%it''s%'");
}

#[test]
fn first_row_is_the_mail() {
    assert_eq!(db().get_lore_email_by_message_id(rows()).unwrap().message_id, "<1>");
    assert!(db().get_lore_email_by_message_id(Vec::new()).is_none());
}

fn referring(id: &str, in_reply_to: Option<&str>, references: Option<&str>) -> LoreRow {
    let mut row = row_of_mail(&mail(id, "s", JAN));
    row.in_reply_to = in_reply_to.map(|s| s.to_string());
    row.references = references.map(|s| s.to_string());
    row
}

#[test]
fn referring_mails_come_once() {
    let replies = vec![referring("<3>", Some("<a.b>"), None)];
    let others = vec![
        referring("<1>", None, Some("<x> <a.b>")),
        referring("<2>", None, Some("<x> <aXb>")),
        referring("<3>", Some("<a.b>"), Some("<a.b>")),
        referring("<4>", Some("<aXb>"), None),
        referring("<5>", None, None),
        referring("<6>", None, Some("<a.b>")),
    ];
    let mails = db().get_lore_emails_referencing("<a.b>", replies, others);
    assert_eq!(ids(&mails), vec!["<3>", "<1>", "<6>"]);
    assert!(mails[0].references.is_none());
}

#[test]
fn subjects_are_searched_in_the_same_case() {
    let limited = |limit: usize| {
        let mails = db().search_lore_emails_by_subject(rows(), "mm", limit, None, None);
        ids(&mails).iter().map(|s| s.to_string()).collect::<Vec<_>>()
    };
    assert_eq!(limited(2), strings(&["<1>", "<2>"]));
    assert_eq!(limited(3), strings(&["<1>", "<2>", "<4>"]));
    let limited_and_dated = |limit: usize| {
        let mails = db().search_lore_emails_by_subject(rows(), "mm", limit, Some(FEB), None);
        ids(&mails).iter().map(|s| s.to_string()).collect::<Vec<_>>()
    };
    assert_eq!(limited_and_dated(1), strings(&[]));
    assert_eq!(limited_and_dated(2), strings(&["<2>"]));
    assert_eq!(limited_and_dated(0), strings(&["<2>"]));
    let search = |part: &str, since: Option<&str>, until: Option<&str>| {
        let mails = db().search_lore_emails_by_subject(rows(), part, 0, since, until);
        ids(&mails).iter().map(|s| s.to_string()).collect::<Vec<_>>()
    };
    assert_eq!(search("mm", None, None), strings(&["<1>", "<2>", "<4>"]));
    assert_eq!(search("MM", None, None), strings(&[]));
    assert_eq!(search("m%", None, None), strings(&[]));
    assert_eq!(search("mm", Some(FEB), None), strings(&["<2>"]));
    assert_eq!(search("mm", None, Some(JAN)), strings(&["<1>"]));
    assert_eq!(search("mm", Some("no date"), None), strings(&["<1>", "<2>", "<4>"]));
}

#[test]
fn windows_include_their_bounds() {
    let w = Window::new(Some(JAN), Some(FEB));
    assert!(w.admits(JAN) && w.admits(FEB) && !w.admits(MAR));
    assert!(w.admits("Mon, 1 Jan 2024 01:00:00 +0100"));
    assert!(!w.admits("Mon, 1 Jan 2024 00:00:00 +0100"));
    assert!(!w.admits("yesterday"));
    assert!(Window::new(None, Some("?")).is_open());
    assert!(!Window::new(None, None).admits("yesterday"));
    assert!(Window::new(None, None).admits(MAR));
}

#[test]
fn fts_patterns_are_plain_words() {
    assert_eq!(fts_pattern("mm: fix use-after-free (v2)"), "mm  fix use after free  v2");
    assert_eq!(fts_pattern("..."), "");
    assert_eq!(fts_pattern("a_b"), "a b");
    assert_eq!(fts_pattern(" a"), " a");
}

#[test]
fn search_expands_until_nothing_more_matches() {
    let mut s = db().search_lore_emails("subject", "^\\[patch\\]", 0, None, None).ok().unwrap();
    assert_eq!(s.fts_limit(), 10000);
    assert_eq!(s.fts_query(), "patch");
    assert!(!s.on_candidates(rows()));
    assert_eq!(s.fts_limit(), 50000);
    assert!(s.on_candidates(rows()));
    assert_eq!(ids(&s.into_results()), vec!["<1>", "<3>"]);
}

#[test]
fn search_stops_at_its_limit() {
    let mut s = db().search_lore_emails("from", "a@x", 2, None, None).ok().unwrap();
    assert_eq!(s.fts_limit(), 20);
    assert!(s.on_candidates(rows()));
    assert_eq!(ids(&s.into_results()), vec!["<1>", "<2>"]);
}

#[test]
fn search_stops_at_once_without_matches() {
    let mut s = db().search_lore_emails("body", "nothing", 5, None, None).ok().unwrap();
    assert!(s.on_candidates(rows()));
    assert!(s.into_results().is_empty());
}

#[test]
fn search_gives_up_at_a_million() {
    let mut s = db().search_lore_emails("from", "a@x", 100, None, None).ok().unwrap();
    let mut rounds = 0;
    let mut over = false;
    while !over {
        let mut some = Vec::new();
        for _ in 0..=rounds {
            some.push(row_of_mail(&mail("<1>", "s", JAN)));
        }
        over = s.on_candidates(some);
        rounds += 1;
    }
    assert_eq!(rounds, 6);
    assert_eq!(s.fts_limit(), 1000 * 5 * 5 * 5 * 5 * 5);
}

#[test]
fn search_honours_fields_and_dates() {
    let count = |field: &str, pattern: &str, since: Option<&str>| {
        let mut s = db().search_lore_emails(field, pattern, 0, since, None).ok().unwrap();
        s.on_candidates(rows());
        s.into_results().len()
    };
    assert_eq!(count("recipients", "B@X", None), 3);
    assert_eq!(count("symbols", "s2", None), 3);
    assert_eq!(count("body", "body", Some(FEB)), 2);
    assert_eq!(count("headers", "h", None), 0);
}

#[test]
fn search_refuses_a_bad_pattern() {
    match db().search_lore_emails("body", "[", 0, None, None) {
        Err(e) => assert_eq!(e.pattern, "["),
        Ok(_) => panic!("no pattern"),
    }
}

fn field(patterns: &[&str], candidates: &[(&str, &str)]) -> FieldCandidates {
    FieldCandidates {
        patterns: strings(patterns),
        candidates: candidates.iter().map(|(a, b)| (a.to_string(), b.to_string())).collect(),
    }
}

#[test]
fn fields_are_intersected_and_patterns_are_alternatives() {
    let from = field(&["alice", "bob"], &[("1", "Alice"), ("2", "bob"), ("3", "carol"), ("1", "ALICE")]);
    let subject = field(&["patch"], &[("2", "PATCH"), ("3", "patch"), ("1", "re")]);
    let none = field(&[], &[("9", "x")]);
    let found = db().query_lore_by_fields_intersection(&vec![from, subject, none]).ok().unwrap();
    assert_eq!(found, strings(&["2"]));
    let only = field(&["alice", "bob"], &[("1", "Alice"), ("2", "bob")]);
    let found = db().query_lore_by_fields_intersection(&vec![only]).ok().unwrap();
    assert_eq!(found, strings(&["1", "2"]));
    let nothing = db().query_lore_by_fields_intersection(&vec![field(&[], &[("9", "x")])]);
    assert!(nothing.ok().unwrap().is_empty());
}

#[test]
fn fields_refuse_a_bad_pattern() {
    let fields = vec![field(&["ok"], &[]), field(&["ok", "("], &[])];
    match db().query_lore_by_fields_intersection(&fields) {
        Err(e) => assert_eq!(e.pattern, "("),
        Ok(_) => panic!("no pattern"),
    }
}

#[test]
fn multi_field_search_plan() {
    let pairs = vec![
        ("from".to_string(), "a".to_string()),
        ("subject".to_string(), "b".to_string()),
        ("from".to_string(), "c".to_string()),
        ("symbols".to_string(), "d".to_string()),
    ];
    let plan = db().search_lore_emails_multi_field(&pairs);
    assert_eq!(plan.from, strings(&["a", "c"]));
    assert_eq!(plan.subject, strings(&["b"]));
    assert!(plan.body.is_empty() && plan.recipients.is_empty());
    assert_eq!(db().field_fts_query(&plan.from), "a c");
    assert_eq!(db().field_fts_limit(0), 100000);
    assert_eq!(db().field_fts_limit(7), 7);
    assert_eq!(db().messages_to_fetch(strings(&["1", "2", "3"]), 2), strings(&["1", "2"]));
    assert_eq!(db().messages_to_fetch(strings(&["1", "2", "3"]), 0), strings(&["1", "2", "3"]));
    let fetched = vec![mail("<1>", "s", JAN), mail("<2>", "s", MAR), mail("<3>", "s", "?")];
    assert_eq!(ids(&db().filter_fetched(fetched, Some(FEB), None)), vec!["<2>"]);
}

fn text(t: &str) -> Cell {
    Cell::Utf8(Some(t.to_string()))
}

#[test]
fn row_signatures() {
    let row = vec![
        text("a"),
        Cell::Utf8(None),
        Cell::UInt32(Some(7)),
        Cell::Boolean(Some(true)),
    ];
    assert_eq!(db().create_row_signature(&row), "a||NULL||7||true");
    let row = vec![
        Cell::UInt64(Some(u64::MAX)),
        Cell::Int64(Some(-12)),
        Cell::Int64(Some(i64::MIN)),
        Cell::Int64(None),
        Cell::Boolean(None),
        Cell::Float32(Some("1.5".to_string())),
        Cell::Vector(Some(vec![Some(1), None, Some(20)])),
        Cell::Vector(Some(Vec::new())),
        Cell::Vector(None),
        Cell::Other(Some("1 day".to_string())),
        Cell::Other(None),
    ];
    assert_eq!(
        db().create_row_signature(&row),
        "18446744073709551615||-12||-9223372036854775808||NULL||NULL||1.5||[1,NULL,20]||[]||NULL\
         ||1 day||NULL"
    );
    assert_eq!(db().create_row_signature(&Vec::new()), "");
}

#[test]
fn signatures_tell_rows_apart() {
    let signature = |row: Vec<Cell>| db().create_row_signature(&row);
    assert_eq!(signature(vec![text("NULL")]), "\\NULL");
    assert_ne!(signature(vec![text("NULL")]), signature(vec![Cell::Utf8(None)]));
    assert_eq!(signature(vec![text("a||b"), text("c")]), "a\\|\\|b||c");
    assert_ne!(
        signature(vec![text("a||b"), text("c")]),
        signature(vec![text("a"), text("b||c")])
    );
    assert_ne!(
        signature(vec![text("a|"), text("b")]),
        signature(vec![text("a"), text("|b")])
    );
    assert_ne!(signature(vec![text("\\NULL")]), signature(vec![text("NULL")]));
    assert_ne!(signature(vec![Cell::Int64(Some(1))]), signature(vec![Cell::Int64(Some(2))]));
}

#[test]
fn rows_that_differ_in_a_number_are_no_duplicates() {
    let row = |line| vec![text("f"), text("f.c"), text("h"), Cell::Int64(Some(line))];
    let scan = db().scan_table_for_duplicates("functions", &vec![row(1), row(2)]);
    assert_eq!((scan.duplicate_groups, scan.duplicate_rows), (0, 0));
    let scan = db().scan_table_for_duplicates("functions", &vec![row(1), row(1)]);
    assert_eq!((scan.duplicate_groups, scan.duplicate_rows), (1, 2));
}

#[test]
fn row_summaries() {
    let function = vec![text("f"), text("f.c"), text("0123456789abcdef")];
    assert_eq!(
        db().create_readable_row_summary(&function, "functions"),
        "f() in f.c (01234567...)"
    );
    let short = vec![text("f"), Cell::Utf8(None), text("0123")];
    assert_eq!(db().create_readable_row_summary(&short, "functions"), "f() in NULL (0123...)");
    let absent = vec![text("f"), text("f.c"), Cell::Utf8(None)];
    assert_eq!(db().create_readable_row_summary(&absent, "functions"), "f() in f.c (NULL...)");
    let wide = vec![text("f"), text("f.c"), text("\u{e9}\u{e9}\u{e9}\u{e9}x")];
    assert_eq!(
        db().create_readable_row_summary(&wide, "functions"),
        "f() in f.c (\u{e9}\u{e9}\u{e9}\u{e9}...)"
    );
    let a_type = vec![text("t"), text("t.h"), text("h"), text("1"), text("struct")];
    assert_eq!(db().create_readable_row_summary(&a_type, "types"), "struct t in t.h");
    assert_eq!(db().create_readable_row_summary(&vec![text("x")], "lore"), "lore row: x");
    let number = vec![Cell::UInt32(Some(1))];
    assert_eq!(db().create_readable_row_summary(&number, "lore"), "lore row: ...");
}

#[test]
fn duplicates_are_counted() {
    let rows = vec![
        vec![text("a")],
        vec![text("b")],
        vec![text("a")],
        vec![text("c")],
        vec![text("c")],
        vec![text("a")],
    ];
    let scan = db().scan_table_for_duplicates("lore", &rows);
    assert_eq!((scan.total_rows, scan.duplicate_groups, scan.duplicate_rows), (6, 2, 5));
    assert_eq!(
        scan.examples,
        vec![vec!["lore row: a".to_string(); 3], vec!["lore row: c".to_string(); 2]]
    );
    let scan = db().scan_table_for_duplicates("lore", &Vec::new());
    assert_eq!((scan.total_rows, scan.duplicate_groups, scan.duplicate_rows), (0, 0, 0));
}

#[test]
fn at_most_five_examples() {
    let mut rows = Vec::new();
    for n in 0..7 {
        rows.push(vec![Cell::UInt32(Some(n))]);
        rows.push(vec![Cell::UInt32(Some(n))]);
    }
    let scan = db().scan_table_for_duplicates("lore", &rows);
    assert_eq!((scan.duplicate_groups, scan.duplicate_rows, scan.examples.len()), (7, 14, 5));
}

fn stats(num_fragments: usize, small: usize, mean_rows: usize, num_rows: usize) -> Option<TableStats> {
    Some(TableStats { num_fragments, num_small_fragments: small, mean_rows, num_rows })
}

#[test]
fn healthy_database() {
    let tables = vec![stats(600, 300, 1000, 20000), stats(20, 10, 1, 10000), None];
    let report = db().check_optimization_health(&tables, &vec![stats(3000, 1, 0, 0)]);
    assert!(!report.needs_optimization);
    assert!(report.issues.is_empty());
    assert_eq!((report.total_fragments, report.total_small_fragments), (3620, 311));
}

#[test]
fn unhealthy_databases() {
    let one = |s: Option<TableStats>| db().check_optimization_health(&vec![None, s], &Vec::new());
    let r = one(stats(601, 0, 1000, 0));
    assert!(r.needs_optimization);
    assert!(r.issues == vec![HealthIssue::TooManyFragments { table: 1, fragments: 601 }]);
    let r = one(stats(21, 11, 1000, 0));
    assert!(r.issues == vec![HealthIssue::SmallFragments { table: 1, small: 11, fragments: 21 }]);
    assert!(one(stats(22, 11, 1000, 0)).issues.is_empty());
    assert!(one(stats(10, 10, 1000, 0)).issues.is_empty());
    let r = one(stats(1, 0, 999, 10001));
    assert!(r.issues == vec![HealthIssue::SmallMean { table: 1, mean_rows: 999 }]);
    assert_eq!(one(stats(700, 700, 1, 20000)).issues.len(), 3);
    let r = db().check_optimization_health(&Vec::new(), &vec![stats(3000, 5, 0, 0), stats(1, 0, 0, 0)]);
    assert!(r.issues == vec![HealthIssue::ContentFragments { fragments: 3001 }]);
}

#[test]
fn storage_numbers() {
    let s = db().function_storage(2048, 1024);
    assert_eq!((s.with_vectors, s.without_vectors), (1024, 1024));
    assert_eq!((s.vector_megabytes, s.text_megabytes), (1, 4));
    let (content, total) = db().get_storage_stats(&vec![Some(3), None, Some(4)], &vec![Some(5), Some(6)]);
    assert_eq!((content, total), (11, 18));
    assert_eq!(db().get_compaction_stats(&vec![Some(5), None]), 5);
    assert_eq!(OPTIMAL_BATCH_SIZE, 65536);
}

#[test]
fn lore_table_info() {
    let indices = vec![IndexInfo {
        name: "from_idx".to_string(),
        columns: strings(&["from", "a\"b"]),
        index_type: "FTS".to_string(),
    }];
    assert_eq!(
        db().get_lore_table_info(12, &indices),
        "Lore Table Information:\n  Total emails: 12\n\nIndices (1 total):\n  - from_idx on [\"from\", \"a\\\"b\"] (type: FTS)\n"
    );
    assert_eq!(
        db().get_lore_table_info(0, &Vec::new()),
        "Lore Table Information:\n  Total emails: 0\n\nIndices (0 total):\n"
    );
}

#[test]
fn table_lists() {
    assert_eq!(shard_names().len(), 16);
    assert_eq!(shard_names()[15], "content_15");
    assert_eq!(main_table_names().len(), 9);
    assert_eq!(db().clear_all_data().len(), 25);
    assert_eq!(db().scan_for_duplicates().len(), 26);
    assert!(db().scan_for_duplicates().contains(&"indexed_branches".to_string()));
    for name in main_table_names().iter().chain(shard_names().iter()) {
        assert!(db().clear_all_data().contains(name));
        assert!(db().scan_for_duplicates().contains(name));
    }
    assert_eq!(
        db().compact_database(&strings(&["lore", "types", "content_0"])),
        strings(&["types", "lore"])
    );
}

#[test]
fn missing_tables_are_created_once() {
    let s = SchemaManager::new();
    let all = s.create_all_tables(&Vec::new());
    assert_eq!(all.len(), 26);
    assert_eq!(all[3], "processed_files");
    assert_eq!(all[9], "indexed_branches");
    let some = s.create_all_tables(&strings(&["functions", "content_3"]));
    assert_eq!(some.len(), 24);
    assert!(s.create_all_tables(&all).is_empty());
    for name in &all {
        assert!(s.create_table_by_name(name).is_ok());
        assert!(s.drop_and_recreate_tables(&all).contains(name));
        assert!(s.compact_and_cleanup(&all).contains(name));
    }
}

#[test]
fn table_layouts() {
    let s = SchemaManager::new();
    let functions = s.create_functions_table();
    assert_eq!(functions.len(), 10);
    assert_eq!(functions[3].name, "line_start");
    assert!(functions[3].kind == ColumnKind::Integer && !functions[3].nullable);
    assert!(functions[7].nullable && functions[7].name == "body_hash");
    let types = s.create_types_table();
    assert_eq!(types.len(), 9);
    assert!(types[5].name == "size" && types[5].nullable && types[5].kind == ColumnKind::Integer);
    for t in ["vectors", "commit_vectors", "lore_vectors"] {
        match s.create_table_by_name(t) {
            Ok(TableLayout::Columns { columns }) => {
                assert!(columns[1].kind == (ColumnKind::Vector { dimensions: 256 }));
            }
            _ => panic!("columns"),
        }
    }
    match s.create_table_by_name("content_7") {
        Ok(TableLayout::Columns { columns }) => assert_eq!(columns[0].name, "blake3_hash"),
        _ => panic!("columns"),
    }
    assert!(matches!(s.create_table_by_name("indexed_branches"), Ok(TableLayout::IndexedBranches)));
    match s.create_table_by_name("contents") {
        Err(e) => assert_eq!(e.name, "contents"),
        Ok(_) => panic!("no such table"),
    }
    assert_eq!(s.create_lore_table().len(), 11);
    assert_eq!(s.create_git_commits_table().len(), 9);
}

#[test]
fn indices_are_created_for_small_databases() {
    let s = SchemaManager::new();
    let all = s.create_all_tables(&Vec::new());
    let groups = s.create_scalar_indices(&all, Some(100), None);
    assert_eq!(groups.len(), 27);
    assert_eq!(groups[0].table, "functions");
    assert_eq!(groups[0].indices.len(), 7);
    assert_eq!(groups[0].indices[6], strings(&["name", "git_file_hash"]));
    assert_eq!(groups[5].table, "lore");
    assert_eq!(groups[9].table, "lore");
    assert_eq!(groups[10].table, "indexed_branches");
    assert_eq!(groups[26].table, "content_15");
    let few = s.create_scalar_indices(&strings(&["lore"]), None, Some(0));
    assert_eq!(few.len(), 2);
    assert!(s.create_scalar_indices(&all, Some(101), None).is_empty());
    assert!(s.create_scalar_indices(&all, Some(5), Some(101)).is_empty());
    assert_eq!(
        s.describe_index("functions", &groups[0].indices[6]),
        "Composite index on functions.(name,git_file_hash)"
    );
    assert_eq!(
        s.describe_index("functions", &groups[0].indices[0]),
        "BTree index on functions.name"
    );
}

#[test]
fn full_text_indices_are_created_once() {
    let s = SchemaManager::new();
    let wanted = strings(&["from", "subject", "body", "recipients", "symbols"]);
    let plain = || ExistingIndex { is_fts: false, columns: strings(&["from"]) };
    assert_eq!(s.create_lore_fts_indices(&vec![plain()]), wanted);
    let other = ExistingIndex { is_fts: true, columns: strings(&["headers"]) };
    assert_eq!(s.create_lore_fts_indices(&vec![other]), wanted);
    let fts = ExistingIndex { is_fts: true, columns: strings(&["symbols"]) };
    assert!(s.create_lore_fts_indices(&vec![plain(), fts]).is_empty());
}

#[test]
fn compaction_message() {
    let s = SchemaManager::new();
    let good = CompactOutcome { counted: true, compacted: true, pruned: true, indices_optimized: true };
    let bad = CompactOutcome { counted: true, compacted: true, pruned: false, indices_optimized: true };
    assert_eq!(s.compaction_summary(&vec![good, good]), "    Optimized 2 tables");
    assert_eq!(s.compaction_summary(&vec![good, bad]), "    Optimized 1 tables, 1 failed");
    assert_eq!(s.compaction_summary(&Vec::new()), "    Optimized 0 tables");
}

#[test]
fn recreation_imports_what_was_exported() {
    let s = SchemaManager::new();
    let step: Recreation<u32> =
        s.drop_and_recreate_table("lore", &strings(&["lore"])).ok().unwrap();
    let step = step.on_exported(Some(vec![1, 2])).on_dropped(true).on_created(true);
    match &step {
        Recreation::NeedImport { data } => assert_eq!(data, &vec![1, 2]),
        _ => panic!("import"),
    }
    assert!(matches!(step.on_imported(true), Recreation::Done { recreated: true }));
}

#[test]
fn recreation_stops_at_a_failure() {
    let start = || -> Recreation<u32> { Recreation::NeedExport };
    assert!(matches!(start().on_exported(None).on_dropped(true), Recreation::Failed));
    assert!(matches!(
        start().on_exported(Some(Vec::new())).on_dropped(true),
        Recreation::Done { recreated: false }
    ));
    assert!(matches!(
        start().on_exported(Some(vec![1])).on_dropped(false).on_created(true),
        Recreation::Failed
    ));
    assert!(matches!(start().on_dropped(true), Recreation::NeedExport));
    let s = SchemaManager::new();
    match s.drop_and_recreate_table::<u32>("lore", &strings(&["types"])) {
        Err(e) => assert_eq!(e.name, "lore"),
        Ok(_) => panic!("no such table"),
    }
}
