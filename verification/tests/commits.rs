use semcode::commits::{
    extract_commit_metadata, generate_commit_diff, list_shas_in_range, parse_commit_range,
    GitCommitInfo, RangeError, RawCommit, TreeChange, MAX_COMMITS,
};
use semcode::lists::{sorted_distinct, NameSet};
use semcode::runs::{gather, process_commits_pipeline, process_lore_commits_pipeline};
use semcode::pipeline::{
    batches_call_for_check, check_and_optimize_if_needed, filter_unseen, index_git_commits, Batcher, OptimizationCheck,
};
use semcode::tags::{parse_commit_message_tags, TagMap};
use semcode::text::{decimal_text, lines_of, replace_all, split_text, trim};

fn strings(items: &[&str]) -> Vec<String> {
    items.iter().map(|s| s.to_string()).collect()
}

fn no_render(_before: &String, _after: &String, _path: &String) -> (String, Vec<String>) {
    (String::new(), Vec::new())
}

fn fixed_render(before: &String, after: &String, path: &String) -> (String, Vec<String>) {
    (format!("[{}|{}|{}]\n", before, after, path), vec!["f".to_string(), "g".to_string()])
}

fn commit(sha: &str) -> GitCommitInfo {
    GitCommitInfo {
        git_sha: sha.to_string(),
        parent_sha: Vec::new(),
        author: String::new(),
        subject: String::new(),
        message: String::new(),
        tags: TagMap::new(),
        diff: String::new(),
        symbols: Vec::new(),
        files: Vec::new(),
    }
}

fn shas(commits: &[GitCommitInfo]) -> Vec<String> {
    commits.iter().map(|c| c.git_sha.clone()).collect()
}

#[test]
fn lines_drop_endings() {
    assert_eq!(lines_of("a\nb\r\nc"), strings(&["a", "b", "c"]));
    assert_eq!(lines_of("a\n"), strings(&["a"]));
    assert_eq!(lines_of("a\n\nb\n"), strings(&["a", "", "b"]));
    assert_eq!(lines_of(""), strings(&[]));
    assert_eq!(lines_of("a\r"), strings(&["a\r"]));
}

#[test]
fn trim_knows_unicode_space() {
    assert_eq!(trim("\u{2003} x y\t\n"), "x y");
    assert_eq!(trim(" \t "), "");
    assert_eq!(trim("\u{200b}x"), "\u{200b}x");
}

#[test]
fn white_space_agrees_with_std() {
    for n in 0..0x3001u32 {
        if let Some(c) = char::from_u32(n) {
            let text = format!("{}a", c);
            assert_eq!(trim(&text), text.trim());
        }
    }
}

#[test]
fn replace_and_split_agree_with_std() {
    assert_eq!(replace_all("a''b'", "'", "''"), "a''b'".replace("'", "''"));
    assert_eq!(replace_all("a///b", "//", "/"), "a///b".replace("//", "/"));
    assert_eq!(split_text("a...b", ".."), strings(&["a", ".b"]));
    assert_eq!(split_text("a..b..c", ".."), strings(&["a", "b", "c"]));
}

#[test]
fn decimal_of_large_number() {
    assert_eq!(decimal_text(u64::MAX), "18446744073709551615");
    assert_eq!(decimal_text(0), "0");
}

#[test]
fn sorted_listing_is_ascending() {
    assert_eq!(
        sorted_distinct(strings(&["b", "a", "b", "ab", "B"])),
        strings(&["B", "a", "ab", "b"])
    );
}

#[test]
fn tags_are_gathered_by_name() {
    let tags = parse_commit_message_tags(
        "subject line\n\nbody: lower case is no tag\nSigned-off-by: A <a@x>\n  Reviewed-by :  B\nSigned-off-by: C\nNot a tag: x\nEmpty:\n",
    );
    assert_eq!(tags.get("Signed-off-by"), Some(&strings(&["A <a@x>", "C"])));
    assert_eq!(tags.get("Reviewed-by"), Some(&strings(&["B"])));
    assert_eq!(tags.get("body"), None);
    assert_eq!(tags.get("Not a tag"), None);
    assert_eq!(tags.get("Empty"), None);
    assert_eq!(tags.entries.len(), 2);
}

#[test]
fn tag_value_keeps_later_colons() {
    let tags = parse_commit_message_tags("Link: https://example.org/x");
    assert_eq!(tags.get("Link"), Some(&strings(&["https://example.org/x"])));
}

#[test]
fn non_ascii_letters_can_be_tags() {
    let tags = parse_commit_message_tags("\u{c9}tat: ok\n\u{e9}tat: no\n");
    assert_eq!(tags.get("\u{c9}tat"), Some(&strings(&["ok"])));
    assert_eq!(tags.get("\u{e9}tat"), None);
}

#[test]
fn ranges_are_read() {
    let r = parse_commit_range("v1..v2").ok().unwrap();
    assert_eq!((r.to.as_str(), r.hidden.as_deref()), ("v2", Some("v1")));
    let r = parse_commit_range("HEAD").ok().unwrap();
    assert_eq!((r.to.as_str(), r.hidden.as_deref()), ("HEAD", None));
    let r = parse_commit_range("..HEAD").ok().unwrap();
    assert_eq!((r.to.as_str(), r.hidden.as_deref()), ("HEAD", None));
    let r = parse_commit_range("a...b").ok().unwrap();
    assert_eq!((r.to.as_str(), r.hidden.as_deref()), (".b", Some("a")));
    match parse_commit_range("a..b..c") {
        Err(RangeError::Invalid { range }) => assert_eq!(range, "a..b..c"),
        _ => panic!("not a range"),
    }
}

#[test]
fn shas_come_oldest_first() {
    let r = list_shas_in_range("a..b", strings(&["3", "2", "1"])).ok().unwrap();
    assert_eq!(r, strings(&["1", "2", "3"]));
    assert_eq!(MAX_COMMITS, 10_000_000);
}

#[test]
fn no_range_has_no_commits() {
    match list_shas_in_range("a..b..c", strings(&["1"])) {
        Err(RangeError::Invalid { range }) => assert_eq!(range, "a..b..c"),
        _ => panic!("no range"),
    }
    assert_eq!(list_shas_in_range("a..b", strings(&["2", "1"])).ok().unwrap(), strings(&["1", "2"]));
}

#[test]
fn batches_call_for_checks_of_the_first_inserter() {
    assert!(batches_call_for_check(0, 600));
    assert!(!batches_call_for_check(1, 600));
    assert!(!batches_call_for_check(0, 300));
    assert!(!batches_call_for_check(0, 601));
}

#[test]
fn too_many_commits_are_refused() {
    let walk = vec![String::new(); MAX_COMMITS + 1];
    match list_shas_in_range("all", walk) {
        Err(RangeError::TooLarge { range }) => assert_eq!(range, "all"),
        _ => panic!("too many"),
    }
}

#[test]
fn diff_of_changes() {
    let changes = vec![
        TreeChange::Modification {
            path: "m.c".to_string(),
            blobs: true,
            contents: Some((b"old".to_vec(), b"new".to_vec())),
        },
        TreeChange::Addition {
            path: "a.c".to_string(),
            blob: true,
            content: Some(b"x\ny\n".to_vec()),
        },
        TreeChange::Deletion {
            path: "d.c".to_string(),
            blob: true,
            content: Some(b"z".to_vec()),
        },
        TreeChange::Addition { path: "dir".to_string(), blob: false, content: None },
        TreeChange::Modification { path: "gone.c".to_string(), blobs: true, contents: None },
        TreeChange::Rewrite {
            source: "was.c".to_string(),
            path: "is.c".to_string(),
            blob: true,
            contents: Some((b"one".to_vec(), b"two".to_vec())),
        },
        TreeChange::Rewrite {
            source: "link".to_string(),
            path: "other".to_string(),
            blob: false,
            contents: None,
        },
    ];
    let (diff, symbols, files) = generate_commit_diff(&changes, &fixed_render);
    assert_eq!(
        diff,
        "diff --git a/m.c b/m.c\n--- a/m.c\n+++ b/m.c\n[old|new|m.c]\n\
         diff --git a/a.c b/a.c\n--- /dev/null\n+++ b/a.c\n@@ -0,0 +1,2 @@\n+x\n+y\n\
         diff --git a/d.c b/d.c\n--- a/d.c\n+++ /dev/null\n@@ -1,1 +0,0 @@\n-z\n\
         diff --git a/gone.c b/gone.c\n--- a/gone.c\n+++ b/gone.c\n\
         diff --git a/was.c b/is.c\n--- a/was.c\n+++ b/is.c\n[one|two|is.c]\n"
    );
    assert_eq!(symbols, strings(&["f", "g", "f", "g"]));
    assert_eq!(files, strings(&["m.c", "a.c", "d.c", "gone.c", "is.c"]));
}

#[test]
fn renamed_file_is_a_changed_file() {
    let changes = vec![TreeChange::Rewrite {
        source: "was.c".to_string(),
        path: "is.c".to_string(),
        blob: true,
        contents: None,
    }];
    let (diff, symbols, files) = generate_commit_diff(&changes, &no_render);
    assert_eq!(diff, "diff --git a/was.c b/is.c\n--- a/was.c\n+++ b/is.c\n");
    assert!(symbols.is_empty());
    assert_eq!(files, strings(&["is.c"]));
}

#[test]
fn no_changes_give_an_empty_diff() {
    let (diff, symbols, files) = generate_commit_diff(&Vec::new(), &no_render);
    assert_eq!(diff, "");
    assert!(symbols.is_empty() && files.is_empty());
}

#[test]
fn malformed_bytes_are_replaced() {
    let changes = vec![TreeChange::Addition {
        path: "a".to_string(),
        blob: true,
        content: Some(vec![b'x', 0xff, b'y']),
    }];
    let (diff, _, _) = generate_commit_diff(&changes, &no_render);
    assert!(diff.ends_with("@@ -0,0 +1,1 @@\n+x\u{fffd}y\n"));
}

fn raw(parents: &[&str]) -> RawCommit {
    RawCommit {
        git_sha: "abc".to_string(),
        parent_sha: strings(parents),
        author_name: "A".to_string(),
        author_email: "a@x".to_string(),
        message: b"subject\n\nbody\n\nSigned-off-by: A\n".to_vec(),
    }
}

#[test]
fn metadata_of_a_commit_with_one_parent() {
    let changes = vec![TreeChange::Deletion {
        path: "d".to_string(),
        blob: true,
        content: None,
    }];
    let info = extract_commit_metadata(raw(&["p"]), Some(&changes), &no_render);
    assert_eq!(info.author, "A <a@x>");
    assert_eq!(info.subject, "subject");
    assert_eq!(info.message, "subject\n\nbody\n\nSigned-off-by: A\n");
    assert_eq!(info.tags.get("Signed-off-by"), Some(&strings(&["A"])));
    assert_eq!(info.files, strings(&["d"]));
    assert_eq!(info.diff, "diff --git a/d b/d\n--- a/d\n+++ /dev/null\n");
}

#[test]
fn merges_and_roots_have_no_diff() {
    let changes = vec![TreeChange::Deletion {
        path: "d".to_string(),
        blob: true,
        content: None,
    }];
    for parents in [&["p", "q"][..], &[][..]] {
        let info = extract_commit_metadata(raw(parents), Some(&changes), &no_render);
        assert_eq!(info.diff, "");
        assert!(info.files.is_empty() && info.symbols.is_empty());
    }
    let info = extract_commit_metadata(raw(&["p"]), None, &no_render);
    assert_eq!(info.diff, "");
}

#[test]
fn empty_message_has_empty_subject() {
    let mut commit = raw(&[]);
    commit.message = Vec::new();
    let info = extract_commit_metadata(commit, None, &no_render);
    assert_eq!(info.subject, "");
    assert_eq!(info.message, "");
}

#[test]
fn batches_keep_everything_in_order() {
    let mut b: Batcher<u32> = Batcher::new(2);
    let mut all = Vec::new();
    for n in 0..5 {
        if let Some(full) = b.push(n) {
            assert_eq!(full.len(), 2);
            all.extend(full);
        }
    }
    let rest = b.finish().unwrap();
    assert_eq!(rest, vec![4]);
    all.extend(rest);
    assert_eq!(all, vec![0, 1, 2, 3, 4]);
}

#[test]
fn batch_size_zero_hands_each_item_on() {
    let mut b: Batcher<u32> = Batcher::new(0);
    assert_eq!(b.push(7), Some(vec![7]));
    assert_eq!(b.finish(), None);
}

#[test]
fn commits_pass_once_across_batches() {
    let mut seen = NameSet::new();
    assert!(seen.insert("known".to_string()));
    let first = filter_unseen(vec![commit("a"), commit("known"), commit("a")], &mut seen);
    assert_eq!(shas(&first), strings(&["a"]));
    let second = filter_unseen(vec![commit("b"), commit("a")], &mut seen);
    assert_eq!(shas(&second), strings(&["b"]));
    assert!(seen.contains("b") && seen.contains("known") && !seen.contains("c"));
}

#[test]
fn only_new_commits_are_indexed() {
    let mut existing = NameSet::new();
    existing.insert("2".to_string());
    let plan = index_git_commits(strings(&["1", "2", "3"]), &existing);
    assert_eq!(plan.commit_count, 3);
    assert_eq!(plan.new_shas, strings(&["1", "3"]));
    existing.insert("1".to_string());
    existing.insert("3".to_string());
    let plan = index_git_commits(strings(&["1", "2", "3"]), &existing);
    assert_eq!(plan.commit_count, 3);
    assert!(plan.new_shas.is_empty());
    assert_eq!(index_git_commits(Vec::new(), &existing).commit_count, 0);
}

#[test]
fn checks_are_rare() {
    let due = check_and_optimize_if_needed(0, 600, Some(900));
    assert!(matches!(due, OptimizationCheck::AskHealth));
    for c in [
        check_and_optimize_if_needed(1, 600, Some(900)),
        check_and_optimize_if_needed(0, 300, Some(900)),
        check_and_optimize_if_needed(0, 601, Some(900)),
        check_and_optimize_if_needed(0, 600, Some(899)),
        check_and_optimize_if_needed(0, 600, None),
    ] {
        assert!(matches!(c, OptimizationCheck::NotDue));
        assert!(!c.restarts_timer());
    }
}

#[test]
fn a_check_tells_whether_it_optimized() {
    let due = check_and_optimize_if_needed(0, 900, Some(10_000));
    let done = due.on_health(Some(true)).on_optimized(true);
    assert!(done.optimized() && done.restarts_timer());
    let failed = due.on_health(Some(true)).on_optimized(false);
    assert!(!failed.optimized() && failed.restarts_timer());
    let healthy = due.on_health(Some(false)).on_optimized(true);
    assert!(!healthy.optimized() && healthy.restarts_timer());
    let unknown = due.on_health(None);
    assert!(!unknown.optimized() && unknown.restarts_timer());
}

#[test]
fn unread_commits_are_passed_over() {
    let mut b: Batcher<u32> = Batcher::new(2);
    assert!(gather(&mut b, Some(1)).is_none());
    assert!(gather(&mut b, None).is_none());
    assert_eq!(gather(&mut b, Some(2)), Some(vec![1, 2]));
    assert!(gather(&mut b, None).is_none());
    assert!(b.finish().is_none());
}

#[test]
fn commit_run_writes_each_commit_once() {
    let mut existing = NameSet::new();
    existing.insert("known".to_string());
    let mut run = process_commits_pipeline(existing);
    run.on_commit();
    run.on_commit();
    run.on_commit();
    assert_eq!(run.processed_count(), 3);
    let fresh = run.on_batch(vec![commit("a"), commit("known"), commit("b")]).unwrap();
    assert_eq!(fresh.iter().map(|c| c.git_sha.as_str()).collect::<Vec<_>>(), vec!["a", "b"]);
    run.on_inserted(fresh.len(), true);
    assert_eq!(run.progress(), "2 inserted");
    assert!(run.on_batch(vec![commit("b"), commit("a")]).is_none());
    let fresh = run.on_batch(vec![commit("c")]).unwrap();
    run.on_inserted(fresh.len(), false);
    assert_eq!(run.progress(), "2 inserted");
    assert_eq!(run.summary(), "Complete: 3 commits processed");
}

#[test]
fn lore_run_numbers_the_batches_that_were_written() {
    let mut run = process_lore_commits_pipeline();
    run.on_commit();
    assert_eq!(run.on_inserted(10, true), Some(1));
    assert_eq!(run.on_inserted(10, false), None);
    assert_eq!(run.on_inserted(5, true), Some(2));
    assert_eq!(run.progress(), "Inserted 15 emails");
    assert_eq!(run.summary(), "Processed 1 emails, inserted 15");
    assert_eq!(run.batches, 2);
}
