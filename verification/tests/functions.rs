use semcode::calls::{calls_in_row, escape_sql, FunctionRow};
use semcode::database::DatabaseManager;
use semcode::functions::{
    run_lookup, FunctionInfo, GitLookup, ParameterInfo, TypeInfo, TypedefInfo,
};
use semcode::grep::{GrepCollector, HashLookup};
use semcode::inserts::combined_outcome;
use semcode::incremental::{ChangeType, ChangedFile, TypeRow};
use semcode::manifest::{CallerSearch, Manifest};

fn strings(items: &[&str]) -> Vec<String> {
    items.iter().map(|s| s.to_string()).collect()
}

fn db() -> DatabaseManager {
    DatabaseManager::new("/repo".to_string())
}

fn function(name: &str, file: &str, lines: (u32, u32), params: usize, body: &str) -> FunctionInfo {
    let mut parameters = Vec::new();
    for i in 0..params {
        parameters.push(ParameterInfo { name: format!("p{}", i), type_text: "int".to_string() });
    }
    FunctionInfo {
        name: name.to_string(),
        file_path: file.to_string(),
        git_file_hash: format!("hash of {}", file),
        line_start: lines.0,
        line_end: lines.1,
        return_type: "int".to_string(),
        parameters,
        body: body.to_string(),
        calls: None,
        types: None,
    }
}

fn long_body() -> String {
    "int f(void)\n{\n    do_something();\n    do_something_else();\n    return 0;\n}".to_string()
}

fn row(name: &str, file: &str, calls: Option<&str>) -> FunctionRow {
    FunctionRow {
        name: name.to_string(),
        file_path: file.to_string(),
        git_file_hash: format!("hash of {}", file),
        calls: calls.map(|c| c.to_string()),
        types: None,
    }
}

fn using(name: &str, file: &str, types: &str) -> FunctionRow {
    FunctionRow { types: Some(types.to_string()), ..row(name, file, None) }
}

fn type_row(name: &str, file: &str, types: Option<&str>) -> TypeRow {
    TypeRow {
        name: name.to_string(),
        file_path: file.to_string(),
        types: types.map(|t| t.to_string()),
    }
}

fn manifest(pairs: &[(&str, &str)]) -> Manifest {
    Manifest::from_pairs(pairs.iter().map(|(a, b)| (a.to_string(), b.to_string())).collect())
}

#[test]
fn repository_path_is_kept() {
    assert_eq!(db().git_repo_path, "/repo");
}

#[test]
fn source_files_come_first() {
    let best = db().select_best_function_match(vec![
        function("f", "f.h", (1, 9), 2, &long_body()),
        function("f", "f.c", (1, 1), 0, "int f(void);"),
    ]);
    assert_eq!(best.file_path, "f.c");
}

#[test]
fn bodies_come_before_declarations() {
    let best = db().select_best_function_match(vec![
        function("f", "a.c", (1, 1), 3, "int f(int a, int b, int c); /* a long comment to fill it up */"),
        function("f", "b.c", (1, 6), 0, &long_body()),
    ]);
    assert_eq!(best.file_path, "b.c");
}

#[test]
fn parameters_then_length_then_order_decide() {
    let with = db().select_best_function_match(vec![
        function("f", "a.c", (1, 6), 0, &long_body()),
        function("f", "b.c", (1, 6), 1, &long_body()),
    ]);
    assert_eq!(with.file_path, "b.c");
    let longer = db().select_best_function_match(vec![
        function("f", "a.c", (1, 6), 1, &long_body()),
        function("f", "b.c", (1, 6), 1, &(long_body() + " ")),
    ]);
    assert_eq!(longer.file_path, "b.c");
    let first = db().select_best_function_match(vec![
        function("f", "a.c", (1, 6), 1, &long_body()),
        function("f", "b.c", (1, 6), 1, &long_body()),
    ]);
    assert_eq!(first.file_path, "a.c");
}

#[test]
fn body_length_is_in_bytes() {
    let umlauts = "\u{e4}".repeat(26);
    let best = db().select_best_function_match(vec![
        function("f", "a.c", (1, 6), 0, &"a".repeat(50)),
        function("f", "b.c", (1, 6), 0, &umlauts),
    ]);
    assert_eq!(best.file_path, "b.c");
}

#[test]
fn nothing_is_found_among_none() {
    assert!(db().find_function(Vec::new()).is_none());
    let one = db().find_function(vec![function("f", "f.h", (9, 1), 0, "")]).unwrap();
    assert_eq!(one.file_path, "f.h");
}

#[test]
fn declarations_are_left_out() {
    let mut a_macro = function("M", "m.h", (1, 1), 0, "");
    a_macro.return_type = String::new();
    let declaration =
        "extern int a_function_with_a_long_name(int first, int second, int third);  \n";
    let kept = db().filter_implementations_only(vec![
        function("f", "f.c", (1, 6), 0, &long_body()),
        function("g", "g.h", (1, 2), 0, declaration),
        function("h", "h.h", (1, 3), 0, declaration),
        function("s", "s.c", (1, 9), 0, "short"),
        a_macro,
    ]);
    let names: Vec<&str> = kept.iter().map(|f| f.name.as_str()).collect();
    assert_eq!(names, vec!["f", "h", "M"]);
}

#[test]
fn lookup_falls_back_to_any_version() {
    let exact = || vec![1u32];
    let any = || vec![2u32, 3];
    let names = || strings(&["f.c"]);
    let files = || vec![("f.c".to_string(), "h".to_string())];
    assert_eq!(run_lookup(names(), files(), exact(), any()), vec![1]);
    assert_eq!(run_lookup(Vec::new(), files(), exact(), any()), Vec::<u32>::new());
    assert_eq!(run_lookup(names(), Vec::new(), exact(), any()), vec![2, 3]);
    assert_eq!(run_lookup(names(), files(), Vec::new(), any()), vec![2, 3]);
}

#[test]
fn lookup_asks_in_order() {
    let step: GitLookup<u32> = GitLookup::start();
    let step = step.on_file_names(strings(&["a.c", "b.c"]));
    match &step {
        GitLookup::NeedHashes { paths } => assert_eq!(paths, &strings(&["a.c", "b.c"])),
        _ => panic!("hashes are wanted"),
    }
    let step = step.on_hashes(vec![("a.c".to_string(), "1".to_string())]);
    match &step {
        GitLookup::NeedExact { files } => assert_eq!(files.len(), 1),
        _ => panic!("contents are wanted"),
    }
    assert!(matches!(step.on_exact(Vec::new()), GitLookup::NeedAny));
}

#[test]
fn git_aware_lookups_pick() {
    let found = GitLookup::Found {
        candidates: vec![
            function("f", "f.h", (1, 1), 0, "int f(void);"),
            function("f", "f.c", (1, 6), 0, &long_body()),
        ],
    };
    assert_eq!(db().find_function_git_aware(found).unwrap().file_path, "f.c");
    let found = GitLookup::Found {
        candidates: vec![
            function("f", "f.h", (1, 1), 0, "int f(void);"),
            function("f", "f.c", (1, 6), 0, &long_body()),
        ],
    };
    assert_eq!(db().find_all_functions_git_aware(found).len(), 1);
    let t = |file: &str| TypeInfo {
        name: "t".to_string(),
        file_path: file.to_string(),
        git_file_hash: String::new(),
        line_start: 1,
        kind: "struct".to_string(),
        definition: String::new(),
    };
    let found = GitLookup::Found { candidates: vec![t("a.h"), t("b.h")] };
    assert_eq!(db().find_type_git_aware(found).unwrap().file_path, "a.h");
    let none: GitLookup<TypedefInfo> = GitLookup::Found { candidates: Vec::new() };
    assert!(db().find_typedef_git_aware(none).is_none());
}

#[test]
fn callees_are_those_of_the_best_version() {
    let mut header = function("f", "f.h", (1, 1), 0, "");
    header.calls = Some(strings(&["wrong"]));
    let mut source = function("f", "f.c", (1, 6), 0, &long_body());
    source.calls = Some(strings(&["g", "h"]));
    assert_eq!(db().get_function_callees(vec![header, source]), strings(&["g", "h"]));
    assert!(db().get_function_callees(Vec::new()).is_empty());
    assert!(db().get_function_callees_git_aware(None).is_empty());
}

#[test]
fn callees_at_a_commit() {
    let mut old = function("f", "f.c", (1, 6), 0, &long_body());
    old.git_file_hash = "old".to_string();
    old.calls = Some(strings(&["gone"]));
    let mut new = function("f", "f.c", (1, 6), 0, "");
    new.git_file_hash = "new".to_string();
    new.calls = Some(strings(&["g"]));
    let m = manifest(&[("f.c", "new")]);
    assert!(db().function_exists_in_manifest(&vec![], &m) == false);
    assert_eq!(db().get_function_callees_with_manifest(vec![old, new], &m), strings(&["g"]));
    let other = function("f", "x.c", (1, 6), 0, "");
    assert!(!db().function_exists_in_manifest(&vec![other], &m));
    let mut there = function("f", "f.c", (1, 1), 0, "");
    there.git_file_hash = "new".to_string();
    assert!(db().function_exists_in_manifest(&vec![there], &m));
}

#[test]
fn manifest_normalizes_paths() {
    let m = db().generate_git_manifest(vec![
        ("a//b.c".to_string(), "1".to_string()),
        ("a/b.c".to_string(), "2".to_string()),
        ("c.c".to_string(), "3".to_string()),
    ]);
    assert!(m.holds("a/b.c", "2"));
    assert!(!m.holds("a/b.c", "1"));
    assert!(!m.holds("a//b.c", "1"));
    assert!(m.all_hashes().contains("3") && !m.all_hashes().contains("1"));
    assert!(!m.is_empty() && Manifest::new().is_empty());
}

#[test]
fn filters_escape_quotes() {
    assert_eq!(escape_sql("o'f"), "o''f");
    assert_eq!(escape_sql("o'f").replace("''", "'"), "o'f");
    assert_eq!(
        db().function_callers_filter("o'f"),
        "calls IS NOT NULL AND (calls LIKE '%\"o''f\",%' OR calls LIKE '%\"o''f\"]%')"
    );
    assert_eq!(
        db().function_callers_with_manifest_filter("f"),
        "calls IS NOT NULL AND calls LIKE '%\\\"f\\\"%%'"
    );
}

fn call_rows() -> Vec<FunctionRow> {
    vec![
        row("main", "main.c", Some("[\"f\",\"g\"]")),
        row("main", "old.c", Some("[\"f\"]")),
        row("f", "f.c", Some("[\"g\"]")),
        row("g", "g.c", None),
        row("h", "h.c", Some("not json")),
        row("start", "main.c", Some("[\"f_suffix\"]")),
        row("idle", "main.c", Some("[]")),
    ]
}

#[test]
fn rows_give_their_calls() {
    assert_eq!(calls_in_row(&row("x", "x.c", Some(" [ \"a\", \"b\\u0063\" ] "))), strings(&["a", "bc"]));
    assert!(calls_in_row(&row("x", "x.c", Some("[1]"))).is_empty());
    assert!(calls_in_row(&row("x", "x.c", None)).is_empty());
}

#[test]
fn callers_are_found_once() {
    assert_eq!(db().get_function_callers("f", &call_rows()), strings(&["main"]));
    assert_eq!(db().get_function_callers("g", &call_rows()), strings(&["main", "f"]));
    assert!(db().get_function_callers("h", &call_rows()).is_empty());
}

#[test]
fn callers_at_a_commit() {
    let m = manifest(&[("main.c", "hash of main.c"), ("moved.c", "hash of old.c")]);
    assert_eq!(
        db().get_function_callers_git_aware("f", &m, &call_rows()),
        strings(&["main", "main"])
    );
    assert_eq!(
        db().get_function_callers_with_manifest("f", &m, &call_rows()),
        strings(&["main"])
    );
    assert!(db().get_function_callers_git_aware("f", &Manifest::new(), &call_rows()).is_empty());
}

#[test]
fn entry_points_are_not_called() {
    assert_eq!(db().get_entry_point_functions(&call_rows()), strings(&["main", "h", "start", "idle"]));
}

#[test]
fn function_without_calls_and_callers_is_an_entry_point() {
    assert_eq!(db().get_entry_point_functions(&vec![row("f", "f.c", None)]), strings(&["f"]));
    assert!(db()
        .get_entry_point_functions(&vec![row("f", "f.c", Some("[\"f\"]"))])
        .is_empty());
}

#[test]
fn all_calls_are_listed() {
    let calls = db().get_all_call_relationships(&call_rows());
    let texts: Vec<(String, String)> =
        calls.iter().map(|c| (c.caller.clone(), c.callee.clone())).collect();
    assert_eq!(texts.len(), 5);
    assert_eq!(texts[0], ("main".to_string(), "f".to_string()));
    assert_eq!(texts[4], ("start".to_string(), "f_suffix".to_string()));
    assert_eq!(calls[2].caller_git_file_hash, "hash of old.c");
    assert!(calls.iter().all(|c| c.callee_git_file_hash.is_none()));
    for c in &calls {
        assert!(db().get_function_callers(&c.callee, &call_rows()).contains(&c.caller));
    }
}

#[test]
fn function_names_once_each() {
    assert_eq!(
        db().get_existing_function_names(&call_rows()),
        strings(&["main", "f", "g", "h", "start", "idle"])
    );
}

#[test]
fn caller_search_at_a_given_commit() {
    let step = db().find_callers_efficient(Some("sha".to_string()));
    match &step {
        CallerSearch::NeedManifest { git_sha } => assert_eq!(git_sha, "sha"),
        _ => panic!("manifest is wanted"),
    }
    let step = step.on_manifest(manifest(&[("a.c", "hash of a.c")]));
    let step = step.on_callers(strings(&["x", "y"]));
    let step = step.on_details(vec![
        function("x", "a.c", (1, 2), 0, ""),
        function("y", "b.c", (1, 2), 0, ""),
        function("z", "a.c", (1, 2), 0, ""),
    ]);
    match step {
        CallerSearch::Done { callers } => {
            assert_eq!(callers.len(), 1);
            assert_eq!(callers[0].name, "x");
        }
        _ => panic!("done"),
    }
}

#[test]
fn caller_search_without_a_commit() {
    let step = db().find_callers_efficient(None).on_current_sha(None);
    let step = step.on_callers(strings(&["x"]));
    match step.on_details(vec![function("x", "b.c", (1, 2), 0, "")]) {
        CallerSearch::Done { callers } => assert_eq!(callers.len(), 1),
        _ => panic!("done"),
    }
    let step = db().find_callers_non_git_aware().on_callers(Vec::new());
    assert!(matches!(step, CallerSearch::Done { .. }));
    let step = db().find_callers_efficient(None).on_current_sha(Some("s".to_string()));
    match step.on_manifest(Manifest::new()) {
        CallerSearch::Done { callers } => assert!(callers.is_empty()),
        _ => panic!("a commit without files has no callers"),
    }
}

fn neighbours(name: &str) -> (bool, Vec<String>, Vec<String>) {
    match name {
        "a" => (true, strings(&["b", "c"]), strings(&["z"])),
        "b" => (true, strings(&["d", "a"]), strings(&["a"])),
        "c" => (false, strings(&["x"]), strings(&["y"])),
        "d" => (true, strings(&["e"]), strings(&["b"])),
        _ => (true, Vec::new(), Vec::new()),
    }
}

fn chain(depth: usize, forward: bool, reverse: bool) -> (Vec<String>, Vec<String>) {
    let mut search = db().collect_callchain_functions("a", depth, forward, reverse);
    let mut asked = Vec::new();
    while let Some(name) = search.next() {
        let (exists, callees, callers) = neighbours(&name);
        search.on_answer(exists, &callees, &callers);
        asked.push(name);
    }
    (search.functions(), asked)
}

#[test]
fn call_chain_stops_at_its_depth() {
    assert_eq!(chain(0, true, true), (strings(&["a"]), strings(&[])));
    assert_eq!(chain(1, true, false), (strings(&["a", "b", "c"]), strings(&["a"])));
    assert_eq!(
        chain(2, true, false),
        (strings(&["a", "b", "c", "d"]), strings(&["a", "b", "c"]))
    );
    assert_eq!(chain(9, true, false).0, strings(&["a", "b", "c", "d", "e"]));
}

#[test]
fn call_chain_goes_both_ways() {
    assert_eq!(chain(1, false, true).0, strings(&["a", "z"]));
    assert_eq!(chain(1, true, true).0, strings(&["a", "b", "c", "z"]));
    assert_eq!(chain(3, false, false).0, strings(&["a"]));
}

#[test]
fn call_chain_asks_each_function_once() {
    let asked = chain(9, true, true).1;
    let mut once = asked.clone();
    once.sort();
    once.dedup();
    assert_eq!(once.len(), asked.len());
}

#[test]
fn grep_filters() {
    assert_eq!(db().grep_content_filter("it's \\w+"), "regexp_like(content, 'it''s \\w+')");
    assert_eq!(
        db().grep_body_filter(&strings(&["h1", "h2"])),
        "body_hash IN ('h1', 'h2')"
    );
    assert_eq!(db().grep_body_filter(&Vec::new()), "body_hash IN ()");
}

#[test]
fn one_function_beyond_the_limit_settles_a_search() {
    let found = bodies();
    assert!(db().grep_needs_more(&found, false, 0));
    assert!(db().grep_needs_more(&found, false, found.len()));
    assert!(!db().grep_needs_more(&found, false, found.len() - 1));
    assert!(db().grep_needs_more(&found, true, 1));
}

#[test]
fn grep_lookup_depends_on_cores() {
    assert!(matches!(db().grep_lookup(0, 8), HashLookup::Nothing));
    assert!(matches!(db().grep_lookup(1, 8), HashLookup::Single));
    assert!(matches!(db().grep_lookup(1000, 8), HashLookup::Single));
    assert!(matches!(db().grep_lookup(2000, 4), HashLookup::Single));
    match db().grep_lookup(1001, 8) {
        HashLookup::Chunked { chunk_size, concurrent } => {
            assert_eq!((chunk_size, concurrent), (500, 3));
        }
        _ => panic!("chunks"),
    }
    match db().grep_lookup(100_000, 64) {
        HashLookup::Chunked { concurrent, .. } => assert_eq!(concurrent, 16),
        _ => panic!("chunks"),
    }
    match db().grep_lookup(100_000, 4) {
        HashLookup::Chunked { concurrent, .. } => assert_eq!(concurrent, 4),
        _ => panic!("chunks"),
    }
}

fn bodies() -> Vec<FunctionInfo> {
    vec![
        function("a", "net/a.c", (1, 2), 0, ""),
        function("b", "mm/b.c", (1, 2), 0, ""),
        function("c", "NET/c.c", (1, 2), 0, ""),
    ]
}

fn names(functions: &[FunctionInfo]) -> Vec<&str> {
    functions.iter().map(|f| f.name.as_str()).collect()
}

#[test]
fn grep_limits_without_paths() {
    let (found, more) = db().grep_function_bodies(bodies(), None, 0).ok().unwrap();
    assert_eq!((names(&found), more), (vec!["a", "b", "c"], false));
    let (found, more) = db().grep_function_bodies(bodies(), None, 2).ok().unwrap();
    assert_eq!((names(&found), more), (vec!["a", "b"], true));
    let (found, more) = db().grep_function_bodies(bodies(), None, 3).ok().unwrap();
    assert_eq!((found.len(), more), (3, false));
}

#[test]
fn grep_paths_ignore_case() {
    let (found, more) = db().grep_function_bodies(bodies(), Some("^net/"), 0).ok().unwrap();
    assert_eq!((names(&found), more), (vec!["a", "c"], false));
    let (found, more) = db().grep_function_bodies(bodies(), Some("^net/"), 1).ok().unwrap();
    assert_eq!((names(&found), more), (vec!["a"], true));
    let (found, more) = db().grep_function_bodies(bodies(), Some("^net/"), 2).ok().unwrap();
    assert_eq!((found.len(), more), (2, false));
}

#[test]
fn grep_refuses_a_bad_pattern() {
    match db().grep_function_bodies(bodies(), Some("("), 0) {
        Err(e) => {
            assert_eq!(e.pattern, "(");
            assert!(e.reason.contains("unclosed group"));
        }
        Ok(_) => panic!("no pattern"),
    }
}

#[test]
fn grep_collector_counts_rows_before_reading_them() {
    let mut c = GrepCollector::new(1, false);
    assert!(c.admits());
    c.push(function("a", "a.c", (1, 2), 0, ""));
    assert!(!c.limit_hit);
    assert!(!c.admits());
    assert!(c.limit_hit);
    let (found, more) = c.finish(None).ok().unwrap();
    assert_eq!((found.len(), more), (1, true));
}

#[test]
fn grep_at_a_commit() {
    let m = manifest(&[("net/a.c", "hash of net/a.c"), ("mm/b.c", "other"), ("NET/c.c", "hash of NET/c.c")]);
    let (found, more) = db().grep_function_bodies_git_aware(bodies(), &m, 0);
    assert_eq!((names(&found), more), (vec!["a", "c"], false));
    let (found, more) = db().grep_function_bodies_git_aware(bodies(), &m, 1);
    assert_eq!((names(&found), more), (vec!["a"], true));
    let (found, more) = db().grep_function_bodies_git_aware(bodies(), &Manifest::new(), 0);
    assert_eq!((found.len(), more), (0, false));
    let mut twice = bodies();
    twice.extend(bodies());
    assert_eq!(db().unique_file_paths(&twice), strings(&["net/a.c", "mm/b.c", "NET/c.c"]));
}

fn changed(path: &str, change_type: ChangeType) -> ChangedFile {
    ChangedFile { path: path.to_string(), change_type }
}

#[test]
fn connected_files_are_scanned() {
    let rows = vec![
        row("f", "f.c", Some("[\"g\"]")),
        row("g", "g.c", None),
        row("main", "main.c", Some("[\"f\"]")),
        row("far", "far.c", Some("[\"main\"]")),
        row("own", "f.c", Some("[\"f\"]")),
    ];
    let edits = vec![changed("f.c", ChangeType::Modified)];
    let mut via = db().find_files_connected_via_calls(&edits, &rows);
    via.sort();
    assert_eq!(via, strings(&["f.c", "g.c", "main.c"]));
    let mut others = db().find_files_connected_to_changes(&edits, &rows, &Vec::new());
    others.sort();
    assert_eq!(others, strings(&["g.c", "main.c"]));
    let mut all = db().get_files_for_incremental_scan(&edits, &rows, &Vec::new());
    all.sort();
    assert_eq!(all, strings(&["f.c", "g.c", "main.c"]));
}

#[test]
fn files_are_connected_by_types() {
    let rows = vec![
        using("f", "f.c", "[\"t\"]"),
        using("t", "name.c", "[\"other\"]"),
        using("g", "g.c", "[\"u\"]"),
        row("main", "main.c", Some("[\"t\"]")),
    ];
    let types = vec![
        type_row("t", "t.h", Some("[\"u\"]")),
        type_row("u", "u.h", None),
        type_row("v", "v.h", Some("[\"t\"]")),
        type_row("w", "w.h", Some("not json")),
    ];
    let edits = vec![changed("t.h", ChangeType::Modified)];
    let mut via = db().find_files_connected_via_types(&edits, &rows, &types);
    via.sort();
    assert_eq!(via, strings(&["f.c", "u.h", "v.h"]));
    let edits = vec![changed("f.c", ChangeType::Modified)];
    assert_eq!(db().find_files_connected_via_types(&edits, &rows, &types), strings(&["t.h"]));
    let edits = vec![changed("name.c", ChangeType::Modified)];
    assert_eq!(
        db().get_files_for_incremental_scan(&edits, &rows, &types),
        strings(&["name.c", "main.c"])
    );
}

#[test]
fn first_failure_of_a_batch_is_reported() {
    let ok: fn() -> Result<(), u32> = || Ok(());
    assert_eq!(combined_outcome(ok(), ok(), ok(), ok()), Ok(()));
    assert_eq!(combined_outcome(ok(), Err(2), Err(3), Err(4)), Err(2));
    assert_eq!(combined_outcome(Err(1), Err(2), ok(), ok()), Err(1));
    assert_eq!(combined_outcome(ok(), ok(), ok(), Err(4)), Err(4));
    assert_eq!(combined_outcome(ok(), ok(), Err(3), Err(4)), Err(3));
}

#[test]
fn deleted_files_are_not_scanned() {
    let rows = vec![
        row("f", "f.c", Some("[\"g\"]")),
        row("g", "g.c", None),
        row("main", "main.c", Some("[\"f\"]")),
    ];
    let edits = vec![
        changed("f.c", ChangeType::Deleted),
        changed("new.c", ChangeType::Added),
        changed("moved.c", ChangeType::Renamed),
    ];
    let mut all = db().get_files_for_incremental_scan(&edits, &rows, &Vec::new());
    all.sort();
    assert_eq!(all, strings(&["g.c", "main.c", "moved.c", "new.c"]));
    assert!(db().get_files_for_incremental_scan(&Vec::new(), &rows, &Vec::new()).is_empty());
}

fn type_info(name: &str, definition: &str) -> TypeInfo {
    TypeInfo {
        name: name.to_string(),
        file_path: format!("{}.h", name),
        git_file_hash: String::new(),
        line_start: 1,
        kind: "struct".to_string(),
        definition: definition.to_string(),
    }
}

#[test]
fn combined_batches_hold_macros_as_functions() {
    let batch = db().insert_batch_combined(
        vec![function("f", "f.c", (1, 2), 0, "body"), function("g", "g.c", (1, 2), 0, "")],
        vec![type_info("t", "struct t;"), type_info("u", "")],
        vec![function("M", "m.h", (1, 1), 0, "body")],
    );
    assert_eq!(names(&batch.functions), vec!["f", "g", "M"]);
    assert_eq!(batch.types.len(), 2);
    assert_eq!(batch.contents, strings(&["body", "body", "struct t;"]));
    let symbols: Vec<&str> = batch.symbol_files.iter().map(|p| p.0.as_str()).collect();
    assert_eq!(symbols, vec!["f", "g", "M", "t", "u"]);
    assert_eq!(batch.symbol_files[3].1, "t.h");
}

#[test]
fn definitions_are_stored_once() {
    let types = vec![type_info("t", "d"), type_info("u", ""), type_info("v", "d"), type_info("w", "e")];
    let batch = db().insert_types(&types);
    assert_eq!(batch.contents, strings(&["d", "e"]));
    assert_eq!(batch.symbol_files.len(), 4);
    let typedefs = vec![
        TypedefInfo {
            name: "t".to_string(),
            file_path: "t.h".to_string(),
            git_file_hash: String::new(),
            line_start: 1,
            definition: "d".to_string(),
        },
    ];
    let batch = db().insert_typedefs(&typedefs);
    assert_eq!(batch.contents, strings(&["d"]));
    assert_eq!(batch.symbol_files, vec![("t".to_string(), "t.h".to_string())]);
    let pairs = db().insert_functions(&vec![function("f", "f.c", (1, 2), 0, "")]);
    assert_eq!(pairs, vec![("f".to_string(), "f.c".to_string())]);
}

#[test]
fn processed_files_are_recorded() {
    let r = db().mark_file_processed("f".to_string(), None, "s".to_string());
    assert_eq!((r.file.as_str(), r.git_sha, r.git_file_sha.as_str()), ("f", None, "s"));
}
