//! Who calls whom, from the rows of the table of functions.
use crate::database::DatabaseManager;
use crate::json::{json_strings, parse_strings, strings_outcome};
use crate::lists::{
    distinct, firsts, lemma_filter_distinct, lemma_firsts, lemma_same_filter, NameSet,
};
use crate::manifest::{holds_file, holds_hash, Manifest};
use crate::text::{
    is_member, lemma_strs_empty, lemma_strs_push, occurs_at, replace_all, replaced, strs,
};
use vstd::prelude::*;

verus! {

broadcast use {lemma_strs_push, lemma_strs_empty};

/// A row of the table of functions; `calls` and `types`, the functions that it calls and
/// the types that it uses, are lists of names as JSON.
pub struct FunctionRow {
    pub name: String,
    pub file_path: String,
    pub git_file_hash: String,
    pub calls: Option<String>,
    pub types: Option<String>,
}

/// A call of one function by another.
pub struct CallRelationship {
    pub caller: String,
    pub callee: String,
    pub caller_git_file_hash: String,
    pub callee_git_file_hash: Option<String>,
}

/// The names that a column lists; none where it does not list them as JSON.
pub open spec fn listed(column: Option<String>) -> Seq<Seq<char>> {
    match column {
        Some(text) => match json_strings(text@) {
            Some(list) => list,
            None => Seq::empty(),
        },
        None => Seq::empty(),
    }
}

/// The functions that a row says are called.
pub open spec fn row_calls(row: FunctionRow) -> Seq<Seq<char>> {
    listed(row.calls)
}

/// The names of rows.
pub open spec fn row_names(rows: Seq<FunctionRow>) -> Seq<Seq<char>> {
    rows.map_values(|r: FunctionRow| r.name@)
}

/// The names of those rows that satisfy a condition, in order.
pub open spec fn names_where(rows: Seq<FunctionRow>, keep: spec_fn(FunctionRow) -> bool) -> Seq<
    Seq<char>,
>
    decreases rows.len(),
{
    if rows.len() == 0 {
        Seq::empty()
    } else if keep(rows.last()) {
        names_where(rows.drop_last(), keep).push(rows.last().name@)
    } else {
        names_where(rows.drop_last(), keep)
    }
}

/// A text inside quotes of SQL: each quote stands twice.
pub open spec fn sql_escaped(s: Seq<char>) -> Seq<char> {
    replaced(s, "'"@, "''"@)
}

/// A text inside quotes of SQL: each quote stands twice.
pub fn escape_sql(s: &str) -> (r: String)
    ensures
        r@ == sql_escaped(s@),
{
    proof {
        reveal_strlit("'");
    }
    replace_all(s, "'", "''")
}

/// The condition by which rows that may call a function are found.
pub open spec fn callers_filter(name: Seq<char>) -> Seq<char> {
    "calls IS NOT NULL AND (calls LIKE '%\""@ + sql_escaped(name) + "\",%' OR calls LIKE '%\""@
        + sql_escaped(name) + "\"]%')"@
}

/// The condition by which rows that may call a function of a commit are found.
pub open spec fn manifest_callers_filter(name: Seq<char>) -> Seq<char> {
    "calls IS NOT NULL AND calls LIKE '%\\\""@ + sql_escaped(name) + "\\\"%%'"@
}

/// The names that a column lists.
pub fn names_listed(column: &Option<String>) -> (r: Vec<String>)
    ensures
        strs(r@) == listed(*column),
{
    match column {
        Some(text) => match parse_strings(text.as_str()) {
            Ok(list) => list,
            Err(_) => Vec::new(),
        },
        None => Vec::new(),
    }
}

/// The functions that a row says are called.
pub fn calls_in_row(row: &FunctionRow) -> (r: Vec<String>)
    ensures
        strs(r@) == row_calls(*row),
{
    names_listed(&row.calls)
}

impl DatabaseManager {
    /// The condition by which rows that may call a function are found: its name
    /// stands in the JSON as an element of its own.
    pub fn function_callers_filter(&self, function_name: &str) -> (r: String)
        ensures
            r@ == callers_filter(function_name@),
    {
        let name = escape_sql(function_name);
        let mut out: String = "calls IS NOT NULL AND (calls LIKE '%\"".to_owned();
        out.append(name.as_str());
        out.append("\",%' OR calls LIKE '%\"");
        out.append(name.as_str());
        out.append("\"]%')");
        out
    }

    /// The condition by which rows that may call a function of a commit are found.
    pub fn function_callers_with_manifest_filter(&self, function_name: &str) -> (r: String)
        ensures
            r@ == manifest_callers_filter(function_name@),
    {
        let name = escape_sql(function_name);
        let mut out: String = "calls IS NOT NULL AND calls LIKE '%\\\"".to_owned();
        out.append(name.as_str());
        out.append("\\\"%%'");
        out
    }

    /// The functions that call a function, each once.
    pub fn get_function_callers(&self, function_name: &str, rows: &Vec<FunctionRow>) -> (r: Vec<
        String,
    >)
        ensures
            strs(r@) == firsts(
                names_where(
                    rows@,
                    |row: FunctionRow| row_calls(row).contains(function_name@),
                ),
            ),
    {
        let ghost keep = |row: FunctionRow| row_calls(row).contains(function_name@);
        let mut out: Vec<String> = Vec::new();
        let mut i: usize = 0;
        while i < rows.len()
            invariant
                i <= rows@.len(),
                keep == (|row: FunctionRow| row_calls(row).contains(function_name@)),
                strs(out@) == names_where(rows@.take(i as int), keep),
            decreases rows@.len() - i,
        {
            proof {
                assert(rows@.take(i + 1).drop_last() =~= rows@.take(i as int));
            }
            if is_member(&calls_in_row(&rows[i]), function_name) {
                out.push(rows[i].name.clone());
            }
            i += 1;
        }
        proof {
            assert(rows@.take(i as int) =~= rows@);
        }
        distinct(out)
    }

    /// The functions that call a function, from those rows whose contents some file of
    /// a commit has; once for each such row.
    pub fn get_function_callers_git_aware(
        &self,
        function_name: &str,
        git_manifest: &Manifest,
        rows: &Vec<FunctionRow>,
    ) -> (r: Vec<String>)
        requires
            git_manifest.wf(),
        ensures
            strs(r@) == names_where(
                rows@,
                |row: FunctionRow|
                    holds_hash(git_manifest@, row.git_file_hash@) && row_calls(row).contains(
                        function_name@,
                    ),
            ),
    {
        let ghost keep = |row: FunctionRow|
            holds_hash(git_manifest@, row.git_file_hash@) && row_calls(row).contains(
                function_name@,
            );
        let hashes = git_manifest.all_hashes();
        let mut out: Vec<String> = Vec::new();
        let mut i: usize = 0;
        while i < rows.len()
            invariant
                i <= rows@.len(),
                keep == (|row: FunctionRow|
                    holds_hash(git_manifest@, row.git_file_hash@) && row_calls(row).contains(
                        function_name@,
                    )),
                forall|h: Seq<char>| #[trigger]
                    hashes@.contains(h) <==> holds_hash(git_manifest@, h),
                strs(out@) == names_where(rows@.take(i as int), keep),
            decreases rows@.len() - i,
        {
            proof {
                assert(rows@.take(i + 1).drop_last() =~= rows@.take(i as int));
            }
            if hashes.contains(rows[i].git_file_hash.as_str()) && is_member(
                &calls_in_row(&rows[i]),
                function_name,
            ) {
                out.push(rows[i].name.clone());
            }
            i += 1;
        }
        proof {
            assert(rows@.take(i as int) =~= rows@);
        }
        out
    }

    /// The functions that call a function, from those rows that a commit holds; once
    /// for each such row.
    pub fn get_function_callers_with_manifest(
        &self,
        function_name: &str,
        git_manifest: &Manifest,
        rows: &Vec<FunctionRow>,
    ) -> (r: Vec<String>)
        ensures
            strs(r@) == names_where(
                rows@,
                |row: FunctionRow|
                    holds_file(git_manifest@, row.file_path@, row.git_file_hash@) && row_calls(
                        row,
                    ).contains(function_name@),
            ),
    {
        let ghost keep = |row: FunctionRow|
            holds_file(git_manifest@, row.file_path@, row.git_file_hash@) && row_calls(
                row,
            ).contains(function_name@);
        let mut out: Vec<String> = Vec::new();
        let mut i: usize = 0;
        while i < rows.len()
            invariant
                i <= rows@.len(),
                keep == (|row: FunctionRow|
                    holds_file(git_manifest@, row.file_path@, row.git_file_hash@) && row_calls(
                        row,
                    ).contains(function_name@)),
                strs(out@) == names_where(rows@.take(i as int), keep),
            decreases rows@.len() - i,
        {
            proof {
                assert(rows@.take(i + 1).drop_last() =~= rows@.take(i as int));
            }
            let row = &rows[i];
            if git_manifest.holds(row.file_path.as_str(), row.git_file_hash.as_str())
                && is_member(&calls_in_row(row), function_name) {
                out.push(row.name.clone());
            }
            i += 1;
        }
        proof {
            assert(rows@.take(i as int) =~= rows@);
        }
        out
    }

    /// The names of all functions, each once.
    pub fn get_existing_function_names(&self, rows: &Vec<FunctionRow>) -> (r: Vec<String>)
        ensures
            strs(r@) == firsts(row_names(rows@)),
    {
        let mut out: Vec<String> = Vec::new();
        let mut i: usize = 0;
        while i < rows.len()
            invariant
                i <= rows@.len(),
                strs(out@) == row_names(rows@).take(i as int),
            decreases rows@.len() - i,
        {
            out.push(rows[i].name.clone());
            proof {
                assert(row_names(rows@).take(i + 1) =~= row_names(rows@).take(i as int).push(
                    rows@[i as int].name@,
                ));
            }
            i += 1;
        }
        proof {
            assert(row_names(rows@).take(i as int) =~= row_names(rows@));
        }
        distinct(out)
    }
}

/// Whether some row says that a function is called.
pub open spec fn is_called(rows: Seq<FunctionRow>, name: Seq<char>) -> bool {
    exists|i: int| 0 <= i < rows.len() && row_calls(#[trigger] rows[i]).contains(name)
}

/// The functions that have no callers, each once.
pub open spec fn entry_points(rows: Seq<FunctionRow>) -> Seq<Seq<char>> {
    firsts(row_names(rows)).filter(|name: Seq<char>| !is_called(rows, name))
}

/// A call as texts: who calls, what is called, and the contents of the caller's file and,
/// where they are known, of the called function's file.
pub type CallText = (Seq<char>, Seq<char>, Seq<char>, Option<Seq<char>>);

/// The texts of a call.
pub open spec fn call_text(c: CallRelationship) -> CallText {
    (
        c.caller@,
        c.callee@,
        c.caller_git_file_hash@,
        match c.callee_git_file_hash {
            Some(hash) => Some(hash@),
            None => None,
        },
    )
}

/// The calls that a row says are made.
pub open spec fn calls_by_row(row: FunctionRow) -> Seq<CallText> {
    row_calls(row).map_values(|callee: Seq<char>| (row.name@, callee, row.git_file_hash@, None))
}

/// All calls, row by row.
pub open spec fn all_calls(rows: Seq<FunctionRow>) -> Seq<CallText>
    decreases rows.len(),
{
    if rows.len() == 0 {
        Seq::empty()
    } else {
        all_calls(rows.drop_last()) + calls_by_row(rows.last())
    }
}

/// The texts of calls.
pub open spec fn call_texts(calls: Seq<CallRelationship>) -> Seq<CallText> {
    calls.map_values(|c: CallRelationship| call_text(c))
}

impl DatabaseManager {
    /// The functions that have no callers, each once.
    pub fn get_entry_point_functions(&self, rows: &Vec<FunctionRow>) -> (r: Vec<String>)
        ensures
            strs(r@) == entry_points(rows@),
    {
        let mut called: NameSet = NameSet::new();
        let mut i: usize = 0;
        while i < rows.len()
            invariant
                i <= rows@.len(),
                forall|x: Seq<char>| #[trigger]
                    called@.contains(x) <==> is_called(rows@.take(i as int), x),
            decreases rows@.len() - i,
        {
            let ghost before = rows@.take(i as int);
            let ghost now = rows@.take(i + 1);
            let ghost was = called@;
            proof {
                assert(now.drop_last() =~= before);
            }
            let list = calls_in_row(&rows[i]);
            let ghost told = strs(list@);
            let mut j: usize = 0;
            while j < list.len()
                invariant
                    j <= list@.len(),
                    told == strs(list@),
                    forall|x: Seq<char>| #[trigger]
                        called@.contains(x) <==> was.contains(x) || told.take(j as int).contains(x),
                decreases list@.len() - j,
            {
                let ghost mid = called@;
                let ghost had = told.take(j as int);
                called.insert(list[j].clone());
                proof {
                    let more = told.take(j + 1);
                    assert(more =~= had.push(told[j as int]));
                    assert forall|x: Seq<char>| #[trigger]
                        called@.contains(x) <==> was.contains(x) || more.contains(x) by {
                        if had.contains(x) {
                            let k = choose|k: int| 0 <= k < had.len() && had[k] == x;
                            assert(more[k] == x);
                        }
                        if x == told[j as int] {
                            assert(more[j as int] == x);
                        }
                        assert(mid.contains(x) <==> was.contains(x) || had.contains(x));
                    }
                }
                j += 1;
            }
            proof {
                assert(told.take(j as int) =~= told);
                assert forall|x: Seq<char>| #[trigger]
                    called@.contains(x) <==> is_called(now, x) by {
                    if is_called(now, x) {
                        let k = choose|k: int|
                            0 <= k < now.len() && row_calls(#[trigger] now[k]).contains(x);
                        if k < before.len() {
                            assert(row_calls(before[k]).contains(x));
                        }
                    }
                    if is_called(before, x) {
                        let k = choose|k: int|
                            0 <= k < before.len() && row_calls(#[trigger] before[k]).contains(x);
                        assert(row_calls(now[k]).contains(x));
                    }
                    if told.contains(x) {
                        assert(row_calls(now[i as int]).contains(x));
                    }
                }
            }
            i += 1;
        }
        proof {
            assert(rows@.take(i as int) =~= rows@);
        }
        let ghost free = |name: Seq<char>| !is_called(rows@, name);
        let names = self.get_existing_function_names(rows);
        let ghost all = strs(names@);
        let mut out: Vec<String> = Vec::new();
        let mut k: usize = 0;
        proof {
            reveal(Seq::filter);
        }
        while k < names.len()
            invariant
                k <= names@.len(),
                all == strs(names@),
                free == (|name: Seq<char>| !is_called(rows@, name)),
                forall|x: Seq<char>| #[trigger] called@.contains(x) <==> is_called(rows@, x),
                strs(out@) == all.take(k as int).filter(free),
            decreases names@.len() - k,
        {
            proof {
                reveal(Seq::filter);
                assert(all.take(k + 1).drop_last() =~= all.take(k as int));
                assert(all.take(k + 1).last() == names@[k as int]@);
            }
            if !called.contains(names[k].as_str()) {
                out.push(names[k].clone());
            }
            k += 1;
        }
        proof {
            assert(all.take(k as int) =~= all);
        }
        out
    }

    /// All calls, row by row. What the called function's file holds is not looked up.
    pub fn get_all_call_relationships(&self, rows: &Vec<FunctionRow>) -> (r: Vec<CallRelationship>)
        ensures
            call_texts(r@) == all_calls(rows@),
    {
        let mut out: Vec<CallRelationship> = Vec::new();
        let mut i: usize = 0;
        proof {
            assert(call_texts(out@) =~= all_calls(rows@.take(0)));
        }
        while i < rows.len()
            invariant
                i <= rows@.len(),
                call_texts(out@) == all_calls(rows@.take(i as int)),
            decreases rows@.len() - i,
        {
            let ghost before = call_texts(out@);
            let ghost by_row = calls_by_row(rows@[i as int]);
            let list = calls_in_row(&rows[i]);
            let mut j: usize = 0;
            proof {
                assert(before + by_row.take(0) =~= before);
            }
            while j < list.len()
                invariant
                    i < rows@.len(),
                    j <= list@.len(),
                    strs(list@) == row_calls(rows@[i as int]),
                    by_row == calls_by_row(rows@[i as int]),
                    call_texts(out@) == before + by_row.take(j as int),
                decreases list@.len() - j,
            {
                let ghost had = call_texts(out@);
                let call = CallRelationship {
                    caller: rows[i].name.clone(),
                    callee: list[j].clone(),
                    caller_git_file_hash: rows[i].git_file_hash.clone(),
                    callee_git_file_hash: None,
                };
                let ghost text = call_text(call);
                out.push(call);
                proof {
                    assert(strs(list@)[j as int] == list@[j as int]@);
                    assert(text == by_row[j as int]);
                    assert(call_texts(out@) =~= had.push(text));
                    assert(call_texts(out@) =~= before + by_row.take(j + 1));
                }
                j += 1;
            }
            proof {
                assert(by_row.take(j as int) =~= by_row);
                assert(rows@.take(i + 1).drop_last() =~= rows@.take(i as int));
            }
            i += 1;
        }
        proof {
            assert(rows@.take(i as int) =~= rows@);
        }
        out
    }
}

/// A function is among those whose rows satisfy a condition exactly where one of its
/// rows does.
proof fn lemma_names_where(
    rows: Seq<FunctionRow>,
    keep: spec_fn(FunctionRow) -> bool,
    name: Seq<char>,
)
    ensures
        names_where(rows, keep).contains(name) <==> exists|i: int|
            0 <= i < rows.len() && keep(#[trigger] rows[i]) && rows[i].name@ == name,
    decreases rows.len(),
{
    if rows.len() > 0 {
        let rest = rows.drop_last();
        lemma_names_where(rest, keep, name);
        let few = names_where(rest, keep);
        let all = names_where(rows, keep);
        if all.contains(name) {
            let k = choose|k: int| 0 <= k < all.len() && all[k] == name;
            if k < few.len() {
                assert(few[k] == name);
                let i = choose|i: int|
                    0 <= i < rest.len() && keep(#[trigger] rest[i]) && rest[i].name@ == name;
                assert(keep(rows[i]));
            } else {
                assert(keep(rows[rows.len() - 1]));
            }
        }
        if exists|i: int| 0 <= i < rows.len() && keep(#[trigger] rows[i]) && rows[i].name@ == name {
            let i = choose|i: int|
                0 <= i < rows.len() && keep(#[trigger] rows[i]) && rows[i].name@ == name;
            if i < rest.len() {
                assert(keep(rest[i]));
                let k = choose|k: int| 0 <= k < few.len() && few[k] == name;
                assert(all[k] == name);
            } else {
                assert(all[few.len() as int] == name);
            }
        }
    }
}

/// A call is among all calls exactly where a row makes it.
proof fn lemma_all_calls(rows: Seq<FunctionRow>, caller: Seq<char>, callee: Seq<char>)
    ensures
        (exists|k: int|
            0 <= k < all_calls(rows).len() && (#[trigger] all_calls(rows)[k]).0 == caller
                && all_calls(rows)[k].1 == callee) <==> exists|i: int|
            0 <= i < rows.len() && row_calls(#[trigger] rows[i]).contains(callee) && rows[i].name@
                == caller,
    decreases rows.len(),
{
    if rows.len() > 0 {
        let rest = rows.drop_last();
        let few = all_calls(rest);
        let all = all_calls(rows);
        let own = calls_by_row(rows.last());
        lemma_all_calls(rest, caller, callee);
        if exists|k: int|
            0 <= k < all.len() && (#[trigger] all[k]).0 == caller && all[k].1 == callee {
            let k = choose|k: int|
                0 <= k < all.len() && (#[trigger] all[k]).0 == caller && all[k].1 == callee;
            if k < few.len() {
                assert(few[k].0 == caller && few[k].1 == callee);
                let i = choose|i: int|
                    0 <= i < rest.len() && row_calls(#[trigger] rest[i]).contains(callee)
                        && rest[i].name@ == caller;
                assert(row_calls(rows[i]).contains(callee));
            } else {
                let m = k - few.len();
                assert(own[m] == all[k]);
                assert(row_calls(rows.last())[m] == callee);
                assert(row_calls(rows[rows.len() - 1]).contains(callee));
            }
        }
        if exists|i: int|
            0 <= i < rows.len() && row_calls(#[trigger] rows[i]).contains(callee) && rows[i].name@
                == caller {
            let i = choose|i: int|
                0 <= i < rows.len() && row_calls(#[trigger] rows[i]).contains(callee)
                    && rows[i].name@ == caller;
            if i < rest.len() {
                assert(row_calls(rest[i]).contains(callee));
                let k = choose|k: int|
                    0 <= k < few.len() && (#[trigger] few[k]).0 == caller && few[k].1 == callee;
                assert(all[k].0 == caller && all[k].1 == callee);
            } else {
                let list = row_calls(rows.last());
                let m = choose|m: int| 0 <= m < list.len() && list[m] == callee;
                assert(own[m].1 == callee);
                assert(all[few.len() + m] == own[m]);
            }
        }
    }
}

/// A function is a caller of another exactly where that call is among all calls.
pub proof fn law_callers_are_calls(rows: Seq<FunctionRow>, caller: Seq<char>, callee: Seq<char>)
    ensures
        firsts(
            names_where(rows, |row: FunctionRow| row_calls(row).contains(callee)),
        ).contains(caller) <==> exists|k: int|
            0 <= k < all_calls(rows).len() && (#[trigger] all_calls(rows)[k]).0 == caller
                && all_calls(rows)[k].1 == callee,
{
    let keep = |row: FunctionRow| row_calls(row).contains(callee);
    lemma_firsts(names_where(rows, keep));
    lemma_names_where(rows, keep, caller);
    lemma_all_calls(rows, caller, callee);
    if exists|i: int| 0 <= i < rows.len() && keep(#[trigger] rows[i]) && rows[i].name@ == caller {
        let i = choose|i: int|
            0 <= i < rows.len() && keep(#[trigger] rows[i]) && rows[i].name@ == caller;
        assert(row_calls(rows[i]).contains(callee));
    }
    if exists|i: int|
        0 <= i < rows.len() && row_calls(#[trigger] rows[i]).contains(callee) && rows[i].name@
            == caller {
        let i = choose|i: int|
            0 <= i < rows.len() && row_calls(#[trigger] rows[i]).contains(callee) && rows[i].name@
                == caller;
        assert(keep(rows[i]));
    }
}

/// An entry point is a function of the index that no function calls, and every such
/// function is one; none is listed twice.
pub proof fn law_entry_points(rows: Seq<FunctionRow>, name: Seq<char>)
    ensures
        entry_points(rows).contains(name) <==> !is_called(rows, name) && exists|i: int|
            0 <= i < rows.len() && (#[trigger] rows[i]).name@ == name,
        entry_points(rows).no_duplicates(),
{
    let free = |name: Seq<char>| !is_called(rows, name);
    let all = row_names(rows);
    lemma_firsts(all);
    lemma_filter_distinct(firsts(all), free);
    if entry_points(rows).contains(name) {
        let k = choose|k: int| 0 <= k < entry_points(rows).len() && entry_points(rows)[k] == name;
        firsts(all).lemma_filter_pred(free, k);
        firsts(all).lemma_filter_contains_rev(free, name);
        assert(all.contains(name));
        let i = choose|i: int| 0 <= i < all.len() && all[i] == name;
        assert(rows[i].name@ == name);
    }
    if !is_called(rows, name) && exists|i: int|
        0 <= i < rows.len() && (#[trigger] rows[i]).name@ == name {
        let i = choose|i: int| 0 <= i < rows.len() && (#[trigger] rows[i]).name@ == name;
        assert(all[i] == name);
        assert(firsts(all).contains(name));
        let k = choose|k: int| 0 <= k < firsts(all).len() && firsts(all)[k] == name;
        firsts(all).lemma_filter_contains(free, k);
    }
}

/// What is escaped for SQL reads back: with each pair of quotes made one, the text is as it
/// was.
pub proof fn law_sql_escape_reads_back(s: Seq<char>)
    ensures
        replaced(sql_escaped(s), "''"@, "'"@) == s,
    decreases s.len(),
{
    reveal_strlit("'");
    reveal_strlit("''");
    let e = sql_escaped(s);
    if s.len() > 0 {
        let rest = s.drop_first();
        law_sql_escape_reads_back(rest);
        if s[0] == '\'' {
            assert(s.subrange(0, 1) =~= "'"@);
            assert(s.skip(1) =~= rest);
            assert(e =~= "''"@ + sql_escaped(rest));
            assert(e.subrange(0, 2) =~= "''"@);
            assert(e.skip(2) =~= sql_escaped(rest));
            assert("'"@ + rest =~= s);
        } else {
            assert(s.subrange(0, 1)[0] == s[0]);
            assert("'"@[0] == '\'');
            assert(!occurs_at(s, "'"@, 0));
            assert(e =~= seq![s[0]] + sql_escaped(rest));
            assert(e[0] == s[0]);
            assert(!occurs_at(e, "''"@, 0)) by {
                if occurs_at(e, "''"@, 0) {
                    assert(e.subrange(0, 2)[0] == e[0]);
                    assert("''"@[0] == '\'');
                }
            }
            assert(e.drop_first() =~= sql_escaped(rest));
            assert(seq![s[0]] + rest =~= s);
        }
    } else {
        assert(e =~= s);
    }
}

/// A text is escaped for SQL character by character: a quote becomes two, and any other
/// character stays.
pub proof fn law_sql_escaped(a: Seq<char>, c: char)
    ensures
        sql_escaped(Seq::<char>::empty()).len() == 0,
        c == '\'' ==> sql_escaped(seq![c] + a) == seq!['\'', '\''] + sql_escaped(a),
        c != '\'' ==> sql_escaped(seq![c] + a) == seq![c] + sql_escaped(a),
{
    reveal_strlit("'");
    reveal_strlit("''");
    let s = seq![c] + a;
    assert("''"@ =~= seq!['\'', '\'']);
    assert("'"@ =~= seq!['\'']);
    assert(s.subrange(0, 1) =~= seq![c]);
    assert(seq![c][0] == c);
    assert(seq!['\''][0] == '\'');
    assert(s.skip(1) =~= a);
    assert(s.drop_first() =~= a);
}

/// What a column lists is the list that its text gives as JSON, and nothing where there is no
/// text or it gives none.
pub proof fn law_listed(column: Option<String>)
    ensures
        column is None ==> listed(column).len() == 0,
        column is Some && (strings_outcome(column->0@) is Err) ==> listed(column).len() == 0,
        column is Some && (strings_outcome(column->0@) is Ok) ==> listed(column) == strings_outcome(
            column->0@,
        )->Ok_0,
{
}

/// The callers of a function: a name is among them exactly where a row of that name lists the
/// function, as JSON, among its calls; each is named once.
pub proof fn law_callers(rows: Seq<FunctionRow>, callee: Seq<char>, caller: Seq<char>)
    ensures
        firsts(
            names_where(rows, |row: FunctionRow| row_calls(row).contains(callee)),
        ).no_duplicates(),
        firsts(
            names_where(rows, |row: FunctionRow| row_calls(row).contains(callee)),
        ).contains(caller) <==> exists|i: int|
            0 <= i < rows.len() && (#[trigger] rows[i]).name@ == caller && rows[i].calls is Some && (
            strings_outcome(rows[i].calls->0@) matches Ok(list) && list.contains(callee)),
{
    let keep = |row: FunctionRow| row_calls(row).contains(callee);
    lemma_firsts(names_where(rows, keep));
    lemma_names_where(rows, keep, caller);
    if exists|i: int| 0 <= i < rows.len() && keep(#[trigger] rows[i]) && rows[i].name@ == caller {
        let i = choose|i: int|
            0 <= i < rows.len() && keep(#[trigger] rows[i]) && rows[i].name@ == caller;
        assert(listed(rows[i].calls).contains(callee));
    }
    if exists|i: int|
        0 <= i < rows.len() && (#[trigger] rows[i]).name@ == caller && rows[i].calls is Some && (
        strings_outcome(rows[i].calls->0@) matches Ok(list) && list.contains(callee)) {
        let i = choose|i: int|
            0 <= i < rows.len() && (#[trigger] rows[i]).name@ == caller && rows[i].calls is Some && (
            strings_outcome(rows[i].calls->0@) matches Ok(list) && list.contains(callee));
        assert(keep(rows[i]));
    }
}

/// The names of the rows that satisfy a condition, in the order of the rows.
pub proof fn law_names_where(rows: Seq<FunctionRow>, keep: spec_fn(FunctionRow) -> bool)
    ensures
        names_where(rows, keep) == rows.filter(keep).map_values(|row: FunctionRow| row.name@),
        row_names(rows) == rows.map_values(|row: FunctionRow| row.name@),
    decreases rows.len(),
{
    reveal(Seq::filter);
    if rows.len() > 0 {
        law_names_where(rows.drop_last(), keep);
    }
    assert(names_where(rows, keep) =~= rows.filter(keep).map_values(|row: FunctionRow| row.name@));
}

/// An entry point is the name of some row that no row lists, as JSON, among its calls, and
/// every such name is one.
pub proof fn law_entry_points_by_rows(rows: Seq<FunctionRow>, name: Seq<char>)
    ensures
        entry_points(rows).contains(name) <==> (exists|i: int|
            0 <= i < rows.len() && (#[trigger] rows[i]).name@ == name) && (forall|i: int|
            0 <= i < rows.len() && (#[trigger] rows[i]).calls is Some && (strings_outcome(
                rows[i].calls->0@,
            ) is Ok) ==> !strings_outcome(rows[i].calls->0@)->Ok_0.contains(name)),
{
    law_entry_points(rows, name);
    if is_called(rows, name) {
        let i = choose|i: int| 0 <= i < rows.len() && row_calls(#[trigger] rows[i]).contains(name);
        assert(rows[i].calls is Some && strings_outcome(rows[i].calls->0@) is Ok);
    }
    assert forall|i: int|
        0 <= i < rows.len() && (#[trigger] rows[i]).calls is Some && (strings_outcome(
            rows[i].calls->0@,
        ) is Ok) && !is_called(rows, name) implies !strings_outcome(rows[i].calls->0@)->Ok_0.contains(
        name,
    ) by {
        assert(!row_calls(rows[i]).contains(name));
    }
}

/// All calls: those of the rows one after the other, each call in the order in which its row
/// lists it, by the name and the contents of the row, the callee's contents not looked up.
pub proof fn law_all_calls(rows: Seq<FunctionRow>, row: FunctionRow)
    ensures
        all_calls(Seq::<FunctionRow>::empty()).len() == 0,
        all_calls(rows.push(row)) == all_calls(rows) + calls_by_row(row),
        row.calls is None ==> calls_by_row(row).len() == 0,
        row.calls is Some && (strings_outcome(row.calls->0@) is Err) ==> calls_by_row(row).len() == 0,
        row.calls is Some && (strings_outcome(row.calls->0@) is Ok) ==> ({
            let list = strings_outcome(row.calls->0@)->Ok_0;
            &&& calls_by_row(row).len() == list.len()
            &&& forall|k: int|
                0 <= k < list.len() ==> #[trigger] calls_by_row(row)[k] == (
                    row.name@,
                    list[k],
                    row.git_file_hash@,
                    None::<Seq<char>>,
                )
        }),
{
    assert(rows.push(row).drop_last() =~= rows);
}

/// The texts of a call are those of its fields.
pub proof fn law_call_text(c: CallRelationship)
    ensures
        call_text(c).0 == c.caller@,
        call_text(c).1 == c.callee@,
        call_text(c).2 == c.caller_git_file_hash@,
        c.callee_git_file_hash is None <==> call_text(c).3 is None,
        c.callee_git_file_hash is Some ==> call_text(c).3 == Some(c.callee_git_file_hash->0@),
{
}

/// The conditions by which rows that may call a function are found: the name, escaped, stands
/// between quotation marks, and behind it a comma or the end of the list; at a commit it is
/// enough that it stands between quotation marks.
pub proof fn law_caller_filters(name: Seq<char>)
    ensures
        callers_filter(name) == "calls IS NOT NULL AND (calls LIKE '%\""@ + sql_escaped(name)
            + "\",%' OR calls LIKE '%\""@ + sql_escaped(name) + "\"]%')"@,
        manifest_callers_filter(name) == "calls IS NOT NULL AND calls LIKE '%\\\""@ + sql_escaped(name)
            + "\\\"%%'"@,
{
}

/// The texts of calls are those of each call, in their order.
pub proof fn law_call_texts(calls: Seq<CallRelationship>, i: int)
    ensures
        call_texts(calls).len() == calls.len(),
        0 <= i < calls.len() ==> call_texts(calls)[i] == call_text(calls[i]),
{
}

/// Entry points come in the order in which the functions first occur.
pub proof fn law_entry_points_in_order(rows: Seq<FunctionRow>)
    ensures
        entry_points(rows) == firsts(row_names(rows)).filter(
            |name: Seq<char>| entry_points(rows).contains(name),
        ),
{
    let all = firsts(row_names(rows));
    let free = |name: Seq<char>| !is_called(rows, name);
    let listed = |name: Seq<char>| entry_points(rows).contains(name);
    lemma_firsts(row_names(rows));
    lemma_filter_distinct(all, free);
    assert forall|i: int| 0 <= i < all.len() implies free(#[trigger] all[i]) == listed(all[i]) by {
        assert(all.contains(all[i]));
    }
    lemma_same_filter(all, free, listed);
}

} // verus!
