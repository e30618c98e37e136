//! Which files to scan again when some have changed.
use crate::calls::{listed, names_listed, FunctionRow};
use crate::database::DatabaseManager;
use crate::lists::{distinct, lemma_filter_distinct, lemma_firsts, NameSet};
use crate::text::{lemma_strs_empty, lemma_strs_push, strs};
use vstd::prelude::*;

verus! {

broadcast use {lemma_strs_push, lemma_strs_empty};

/// How a file changed.
#[derive(Clone, Copy, PartialEq, Eq, Structural)]
pub enum ChangeType {
    Added,
    Modified,
    Deleted,
    Renamed,
}

/// A file that changed between two commits.
pub struct ChangedFile {
    pub path: String,
    pub change_type: ChangeType,
}

/// Whether a path is one of the changed files.
pub open spec fn is_changed(changed: Seq<ChangedFile>, path: Seq<char>) -> bool {
    exists|i: int| 0 <= i < changed.len() && (#[trigger] changed[i]).path@ == path
}

/// Whether a path is one of the changed files that still exist.
pub open spec fn is_changed_file(changed: Seq<ChangedFile>, path: Seq<char>) -> bool {
    exists|i: int|
        0 <= i < changed.len() && (#[trigger] changed[i]).path@ == path && changed[i].change_type
            != ChangeType::Deleted
}

/// A row of the table of types; `types`, the types that it refers to, is a list of names as
/// JSON.
pub struct TypeRow {
    pub name: String,
    pub file_path: String,
    pub types: Option<String>,
}

/// A part of a file as others see it: the name that it defines, if any, its file, and the
/// names that it uses.
pub ghost struct Link {
    pub defines: Option<Seq<char>>,
    pub file_path: Seq<char>,
    pub uses: Seq<Seq<char>>,
}

/// Functions as they call each other.
pub open spec fn call_links(rows: Seq<FunctionRow>) -> Seq<Link> {
    rows.map_values(
        |row: FunctionRow|
            Link {
                defines: Some(row.name@),
                file_path: row.file_path@,
                uses: listed(row.calls),
            },
    )
}

/// Functions and types as they use types.
pub open spec fn type_links(functions: Seq<FunctionRow>, types: Seq<TypeRow>) -> Seq<Link> {
    functions.map_values(
        |row: FunctionRow|
            Link { defines: None, file_path: row.file_path@, uses: listed(row.types) },
    ) + types.map_values(
        |row: TypeRow|
            Link {
                defines: Some(row.name@),
                file_path: row.file_path@,
                uses: listed(row.types),
            },
    )
}

/// Whether some changed file defines a name.
pub open spec fn defined_in_changed(
    links: Seq<Link>,
    changed: Seq<ChangedFile>,
    name: Seq<char>,
) -> bool {
    exists|i: int|
        0 <= i < links.len() && is_changed(changed, (#[trigger] links[i]).file_path)
            && links[i].defines == Some(name)
}

/// Whether some changed file uses a name.
pub open spec fn used_by_changed(
    links: Seq<Link>,
    changed: Seq<ChangedFile>,
    name: Seq<char>,
) -> bool {
    exists|i: int|
        0 <= i < links.len() && is_changed(changed, (#[trigger] links[i]).file_path)
            && links[i].uses.contains(name)
}

/// Whether a part uses a name that a changed file defines, or defines one that a changed
/// file uses.
pub open spec fn touches_changed(
    links: Seq<Link>,
    changed: Seq<ChangedFile>,
    link: Link,
) -> bool {
    ||| exists|k: int|
        0 <= k < link.uses.len() && defined_in_changed(links, changed, #[trigger] link.uses[k])
    ||| link.defines is Some && used_by_changed(links, changed, link.defines->0)
}

/// Whether a file is connected to a changed one: a part of it uses a name that a changed
/// file defines, or defines one that a changed file uses.
pub open spec fn connected(links: Seq<Link>, changed: Seq<ChangedFile>, path: Seq<char>) -> bool {
    exists|i: int|
        0 <= i < links.len() && (#[trigger] links[i]).file_path == path && touches_changed(
            links,
            changed,
            links[i],
        )
}

/// Whether a file is connected to a changed one by calls or by types.
pub open spec fn connected_to_changes(
    functions: Seq<FunctionRow>,
    types: Seq<TypeRow>,
    changed: Seq<ChangedFile>,
    path: Seq<char>,
) -> bool {
    connected(call_links(functions), changed, path) || connected(
        type_links(functions, types),
        changed,
        path,
    )
}

struct Part {
    defines: Option<String>,
    file_path: String,
    uses: Vec<String>,
}

spec fn link(part: Part) -> Link {
    Link {
        defines: match part.defines {
            Some(name) => Some(name@),
            None => None,
        },
        file_path: part.file_path@,
        uses: strs(part.uses@),
    }
}

spec fn links(parts: Seq<Part>) -> Seq<Link> {
    parts.map_values(|part: Part| link(part))
}

fn call_parts(rows: &Vec<FunctionRow>) -> (r: Vec<Part>)
    ensures
        links(r@) == call_links(rows@),
{
    let mut out: Vec<Part> = Vec::new();
    let mut i: usize = 0;
    while i < rows.len()
        invariant
            i <= rows@.len(),
            links(out@) == call_links(rows@).take(i as int),
        decreases rows@.len() - i,
    {
        let ghost had = links(out@);
        let part = Part {
            defines: Some(rows[i].name.clone()),
            file_path: rows[i].file_path.clone(),
            uses: names_listed(&rows[i].calls),
        };
        let ghost seen = link(part);
        out.push(part);
        proof {
            assert(seen == call_links(rows@)[i as int]);
            assert(links(out@) =~= had.push(seen));
            assert(call_links(rows@).take(i + 1) =~= had.push(seen));
        }
        i += 1;
    }
    proof {
        assert(call_links(rows@).take(i as int) =~= call_links(rows@));
    }
    out
}

fn type_parts(functions: &Vec<FunctionRow>, types: &Vec<TypeRow>) -> (r: Vec<Part>)
    ensures
        links(r@) == type_links(functions@, types@),
{
    let ghost all = type_links(functions@, types@);
    let mut out: Vec<Part> = Vec::new();
    let mut i: usize = 0;
    while i < functions.len()
        invariant
            i <= functions@.len(),
            all == type_links(functions@, types@),
            links(out@) == all.take(i as int),
        decreases functions@.len() - i,
    {
        let ghost had = links(out@);
        let part = Part {
            defines: None,
            file_path: functions[i].file_path.clone(),
            uses: names_listed(&functions[i].types),
        };
        let ghost seen = link(part);
        out.push(part);
        proof {
            assert(seen == all[i as int]);
            assert(links(out@) =~= had.push(seen));
            assert(all.take(i + 1) =~= had.push(seen));
        }
        i += 1;
    }
    let mut j: usize = 0;
    while j < types.len()
        invariant
            j <= types@.len(),
            all == type_links(functions@, types@),
            links(out@) == all.take(functions@.len() + j),
        decreases types@.len() - j,
    {
        let ghost had = links(out@);
        let part = Part {
            defines: Some(types[j].name.clone()),
            file_path: types[j].file_path.clone(),
            uses: names_listed(&types[j].types),
        };
        let ghost seen = link(part);
        out.push(part);
        proof {
            assert(seen == all[functions@.len() + j]);
            assert(links(out@) =~= had.push(seen));
            assert(all.take(functions@.len() + j + 1) =~= had.push(seen));
        }
        j += 1;
    }
    proof {
        assert(all.take(functions@.len() + j) =~= all);
    }
    out
}

fn changed_paths(changed: &Vec<ChangedFile>) -> (r: NameSet)
    ensures
        forall|p: Seq<char>| #[trigger] r@.contains(p) <==> is_changed(changed@, p),
{
    let mut out: NameSet = NameSet::new();
    let mut i: usize = 0;
    while i < changed.len()
        invariant
            i <= changed@.len(),
            forall|p: Seq<char>| #[trigger]
                out@.contains(p) <==> exists|j: int|
                    0 <= j < i && (#[trigger] changed@[j]).path@ == p,
        decreases changed@.len() - i,
    {
        let ghost was = out@;
        out.insert(changed[i].path.clone());
        proof {
            assert forall|p: Seq<char>| #[trigger] out@.contains(p) <==> exists|j: int|
                0 <= j < i + 1 && (#[trigger] changed@[j]).path@ == p by {
                if was.contains(p) {
                    let j = choose|j: int| 0 <= j < i && (#[trigger] changed@[j]).path@ == p;
                    assert(changed@[j].path@ == p);
                }
                if p == changed@[i as int].path@ {
                    assert(changed@[i as int].path@ == p);
                }
            }
        }
        i += 1;
    }
    out
}

fn defined_names(parts: &Vec<Part>, paths: &NameSet, Ghost(changed): Ghost<
    Seq<ChangedFile>,
>) -> (r: NameSet)
    requires
        forall|p: Seq<char>| #[trigger] paths@.contains(p) <==> is_changed(changed, p),
    ensures
        forall|n: Seq<char>| #[trigger]
            r@.contains(n) <==> defined_in_changed(links(parts@), changed, n),
{
    let ghost all = links(parts@);
    let mut out: NameSet = NameSet::new();
    let mut i: usize = 0;
    while i < parts.len()
        invariant
            i <= parts@.len(),
            all == links(parts@),
            forall|p: Seq<char>| #[trigger] paths@.contains(p) <==> is_changed(changed, p),
            forall|n: Seq<char>| #[trigger]
                out@.contains(n) <==> exists|j: int|
                    0 <= j < i && is_changed(changed, (#[trigger] all[j]).file_path)
                        && all[j].defines == Some(n),
        decreases parts@.len() - i,
    {
        let ghost was = out@;
        let part = &parts[i];
        assert(all[i as int] == link(*part));
        if paths.contains(part.file_path.as_str()) {
            if let Some(name) = &part.defines {
                out.insert(name.clone());
            }
        }
        proof {
            assert forall|n: Seq<char>| #[trigger] out@.contains(n) <==> exists|j: int|
                0 <= j < i + 1 && is_changed(changed, (#[trigger] all[j]).file_path)
                    && all[j].defines == Some(n) by {
                if was.contains(n) {
                    let j = choose|j: int|
                        0 <= j < i && is_changed(changed, (#[trigger] all[j]).file_path)
                            && all[j].defines == Some(n);
                    assert(is_changed(changed, all[j].file_path));
                }
                if is_changed(changed, all[i as int].file_path) && all[i as int].defines == Some(
                    n,
                ) {
                    assert(out@.contains(n));
                }
            }
        }
        i += 1;
    }
    out
}

fn used_names(parts: &Vec<Part>, paths: &NameSet, Ghost(changed): Ghost<Seq<ChangedFile>>) -> (r:
    NameSet)
    requires
        forall|p: Seq<char>| #[trigger] paths@.contains(p) <==> is_changed(changed, p),
    ensures
        forall|n: Seq<char>| #[trigger]
            r@.contains(n) <==> used_by_changed(links(parts@), changed, n),
{
    let ghost all = links(parts@);
    let mut out: NameSet = NameSet::new();
    let mut i: usize = 0;
    while i < parts.len()
        invariant
            i <= parts@.len(),
            all == links(parts@),
            forall|p: Seq<char>| #[trigger] paths@.contains(p) <==> is_changed(changed, p),
            forall|n: Seq<char>| #[trigger]
                out@.contains(n) <==> exists|j: int|
                    0 <= j < i && is_changed(changed, (#[trigger] all[j]).file_path)
                        && all[j].uses.contains(n),
        decreases parts@.len() - i,
    {
        let ghost was = out@;
        let here = paths.contains(parts[i].file_path.as_str());
        let list = &parts[i].uses;
        let ghost told = strs(list@);
        assert(all[i as int] == link(parts@[i as int]));
        let mut k: usize = 0;
        while here && k < list.len()
            invariant
                k <= list@.len(),
                told == strs(list@),
                k > 0 ==> here,
                forall|n: Seq<char>| #[trigger]
                    out@.contains(n) <==> was.contains(n) || told.take(k as int).contains(n),
            decreases list@.len() - k,
        {
            let ghost mid = out@;
            let ghost had = told.take(k as int);
            out.insert(list[k].clone());
            proof {
                let more = told.take(k + 1);
                assert(more =~= had.push(told[k as int]));
                assert forall|n: Seq<char>| #[trigger] out@.contains(n) <==> was.contains(n)
                    || more.contains(n) by {
                    if had.contains(n) {
                        let m = choose|m: int| 0 <= m < had.len() && had[m] == n;
                        assert(more[m] == n);
                    }
                    if n == told[k as int] {
                        assert(more[k as int] == n);
                    }
                    assert(mid.contains(n) <==> was.contains(n) || had.contains(n));
                }
            }
            k += 1;
        }
        proof {
            if here {
                assert(told.take(k as int) =~= told);
            } else {
                assert(told.take(k as int) =~= Seq::empty());
            }
            assert forall|n: Seq<char>| #[trigger] out@.contains(n) <==> exists|j: int|
                0 <= j < i + 1 && is_changed(changed, (#[trigger] all[j]).file_path)
                    && all[j].uses.contains(n) by {
                if was.contains(n) {
                    let j = choose|j: int|
                        0 <= j < i && is_changed(changed, (#[trigger] all[j]).file_path)
                            && all[j].uses.contains(n);
                    assert(is_changed(changed, all[j].file_path));
                }
                if here && told.contains(n) {
                    assert(is_changed(changed, all[i as int].file_path));
                }
            }
        }
        i += 1;
    }
    out
}

fn uses_one_of(part: &Part, names: &NameSet) -> (r: bool)
    ensures
        r == exists|k: int|
            0 <= k < strs(part.uses@).len() && names@.contains(#[trigger] strs(part.uses@)[k]),
{
    let list = &part.uses;
    let mut k: usize = 0;
    while k < list.len()
        invariant
            k <= list@.len(),
            list@ == part.uses@,
            forall|m: int| 0 <= m < k ==> !names@.contains(#[trigger] strs(part.uses@)[m]),
        decreases list@.len() - k,
    {
        assert(strs(part.uses@)[k as int] == list@[k as int]@);
        if names.contains(list[k].as_str()) {
            return true;
        }
        k += 1;
    }
    false
}

fn touches(
    part: &Part,
    defined: &NameSet,
    used: &NameSet,
    Ghost(all): Ghost<Seq<Link>>,
    Ghost(changed): Ghost<Seq<ChangedFile>>,
) -> (r: bool)
    requires
        forall|n: Seq<char>| #[trigger] defined@.contains(n) <==> defined_in_changed(all, changed, n),
        forall|n: Seq<char>| #[trigger] used@.contains(n) <==> used_by_changed(all, changed, n),
    ensures
        r == touches_changed(all, changed, link(*part)),
{
    let uses = uses_one_of(part, defined);
    proof {
        let l = link(*part);
        if uses {
            let k = choose|k: int|
                0 <= k < l.uses.len() && defined@.contains(#[trigger] strs(part.uses@)[k]);
            assert(defined_in_changed(all, changed, l.uses[k]));
        }
        if exists|k: int|
            0 <= k < l.uses.len() && defined_in_changed(all, changed, #[trigger] l.uses[k]) {
            let k = choose|k: int|
                0 <= k < l.uses.len() && defined_in_changed(all, changed, #[trigger] l.uses[k]);
            assert(defined@.contains(strs(part.uses@)[k]));
        }
    }
    if uses {
        return true;
    }
    match &part.defines {
        Some(name) => used.contains(name.as_str()),
        None => false,
    }
}

fn connected_files(parts: &Vec<Part>, changed_files: &Vec<ChangedFile>) -> (r: Vec<String>)
    ensures
        strs(r@).no_duplicates(),
        forall|p: Seq<char>| #[trigger]
            strs(r@).contains(p) <==> connected(links(parts@), changed_files@, p),
{
    let ghost changed = changed_files@;
    let ghost all = links(parts@);
    let paths = changed_paths(changed_files);
    let defined = defined_names(parts, &paths, Ghost(changed));
    let used = used_names(parts, &paths, Ghost(changed));
    let mut out: Vec<String> = Vec::new();
    let mut i: usize = 0;
    while i < parts.len()
        invariant
            i <= parts@.len(),
            changed == changed_files@,
            all == links(parts@),
            forall|n: Seq<char>| #[trigger]
                defined@.contains(n) <==> defined_in_changed(all, changed, n),
            forall|n: Seq<char>| #[trigger] used@.contains(n) <==> used_by_changed(all, changed, n),
            forall|p: Seq<char>| #[trigger]
                strs(out@).contains(p) <==> exists|j: int|
                    0 <= j < i && (#[trigger] all[j]).file_path == p && touches_changed(
                        all,
                        changed,
                        all[j],
                    ),
        decreases parts@.len() - i,
    {
        let ghost had = strs(out@);
        let part = &parts[i];
        assert(all[i as int] == link(*part));
        if touches(part, &defined, &used, Ghost(all), Ghost(changed)) {
            out.push(part.file_path.clone());
            assert(strs(out@) == had.push(part.file_path@));
            assert(strs(out@)[had.len() as int] == part.file_path@);
        }
        proof {
            let now = strs(out@);
            assert forall|p: Seq<char>| #[trigger] now.contains(p) <==> exists|j: int|
                0 <= j < i + 1 && (#[trigger] all[j]).file_path == p && touches_changed(
                    all,
                    changed,
                    all[j],
                ) by {
                if now.contains(p) {
                    let k = choose|k: int| 0 <= k < now.len() && now[k] == p;
                    if k < had.len() {
                        assert(had[k] == p);
                        assert(had.contains(p));
                        let j = choose|j: int|
                            0 <= j < i && (#[trigger] all[j]).file_path == p && touches_changed(
                                all,
                                changed,
                                all[j],
                            );
                        assert(all[j].file_path == p);
                    } else {
                        assert(all[i as int].file_path == p);
                    }
                }
                if had.contains(p) {
                    let k = choose|k: int| 0 <= k < had.len() && had[k] == p;
                    assert(now[k] == p);
                }
            }
        }
        i += 1;
    }
    proof {
        lemma_firsts(strs(out@));
    }
    distinct(out)
}

/// What a joined list holds.
proof fn lemma_joined_contains(a: Seq<Seq<char>>, b: Seq<Seq<char>>)
    ensures
        forall|p: Seq<char>| #[trigger] (a + b).contains(p) <==> a.contains(p) || b.contains(p),
{
    let all = a + b;
    assert forall|p: Seq<char>| #[trigger] all.contains(p) <==> a.contains(p) || b.contains(p) by {
        if all.contains(p) {
            let k = choose|k: int| 0 <= k < all.len() && all[k] == p;
            if k < a.len() {
                assert(a[k] == p);
            } else {
                assert(b[k - a.len()] == p);
            }
        }
        if a.contains(p) {
            let k = choose|k: int| 0 <= k < a.len() && a[k] == p;
            assert(all[k] == p);
        }
        if b.contains(p) {
            let k = choose|k: int| 0 <= k < b.len() && b[k] == p;
            assert(all[a.len() + k] == p);
        }
    }
}

impl DatabaseManager {
    /// The files connected to changed ones by calls, each once: those that contain a
    /// function that calls one of a changed file, and those that contain a function that
    /// a changed file calls.
    pub fn find_files_connected_via_calls(
        &self,
        changed_files: &Vec<ChangedFile>,
        rows: &Vec<FunctionRow>,
    ) -> (r: Vec<String>)
        ensures
            strs(r@).no_duplicates(),
            forall|p: Seq<char>| #[trigger]
                strs(r@).contains(p) <==> connected(call_links(rows@), changed_files@, p),
    {
        connected_files(&call_parts(rows), changed_files)
    }

    /// The files connected to changed ones by types, each once: those that use a type of a
    /// changed file, in a function or in a type, and those that define a type that a
    /// changed file uses.
    pub fn find_files_connected_via_types(
        &self,
        changed_files: &Vec<ChangedFile>,
        rows: &Vec<FunctionRow>,
        types: &Vec<TypeRow>,
    ) -> (r: Vec<String>)
        ensures
            strs(r@).no_duplicates(),
            forall|p: Seq<char>| #[trigger]
                strs(r@).contains(p) <==> connected(type_links(rows@, types@), changed_files@, p),
    {
        connected_files(&type_parts(rows, types), changed_files)
    }

    /// The files connected to changed ones, by calls or by types, that have not changed
    /// themselves, each once.
    pub fn find_files_connected_to_changes(
        &self,
        changed_files: &Vec<ChangedFile>,
        rows: &Vec<FunctionRow>,
        types: &Vec<TypeRow>,
    ) -> (r: Vec<String>)
        ensures
            strs(r@).no_duplicates(),
            forall|p: Seq<char>| #[trigger]
                strs(r@).contains(p) <==> connected_to_changes(rows@, types@, changed_files@, p)
                    && !is_changed(changed_files@, p),
    {
        let paths = changed_paths(changed_files);
        let mut both = self.find_files_connected_via_calls(changed_files, rows);
        let mut by_types = self.find_files_connected_via_types(changed_files, rows, types);
        proof {
            lemma_joined_contains(strs(both@), strs(by_types@));
        }
        let ghost joint = strs(both@) + strs(by_types@);
        both.append(&mut by_types);
        proof {
            assert(strs(both@) =~= joint);
            lemma_firsts(joint);
        }
        let all = distinct(both);
        let ghost found = strs(all@);
        let ghost keep = |p: Seq<char>| !is_changed(changed_files@, p);
        let mut out: Vec<String> = Vec::new();
        let mut i: usize = 0;
        proof {
            reveal(Seq::filter);
        }
        while i < all.len()
            invariant
                i <= all@.len(),
                found == strs(all@),
                keep == (|p: Seq<char>| !is_changed(changed_files@, p)),
                forall|p: Seq<char>| #[trigger]
                    paths@.contains(p) <==> is_changed(changed_files@, p),
                strs(out@) == found.take(i as int).filter(keep),
            decreases all@.len() - i,
        {
            proof {
                reveal(Seq::filter);
                assert(found.take(i + 1).drop_last() =~= found.take(i as int));
                assert(found.take(i + 1).last() == all@[i as int]@);
            }
            if !paths.contains(all[i].as_str()) {
                out.push(all[i].clone());
            }
            i += 1;
        }
        proof {
            assert(found.take(i as int) =~= found);
            lemma_filter_distinct(found, keep);
        }
        out
    }

    /// The files to scan when some have changed, each once: the changed files that still
    /// exist, and the files connected to changed ones by calls or by types.
    pub fn get_files_for_incremental_scan(
        &self,
        changed_files: &Vec<ChangedFile>,
        rows: &Vec<FunctionRow>,
        types: &Vec<TypeRow>,
    ) -> (r: Vec<String>)
        ensures
            strs(r@).no_duplicates(),
            forall|p: Seq<char>| #[trigger]
                strs(r@).contains(p) <==> is_changed_file(changed_files@, p) || (
                connected_to_changes(rows@, types@, changed_files@, p) && !is_changed(
                    changed_files@,
                    p,
                )),
    {
        let mut out: Vec<String> = Vec::new();
        let mut i: usize = 0;
        while i < changed_files.len()
            invariant
                i <= changed_files@.len(),
                forall|p: Seq<char>| #[trigger]
                    strs(out@).contains(p) <==> exists|j: int|
                        0 <= j < i && (#[trigger] changed_files@[j]).path@ == p
                            && changed_files@[j].change_type != ChangeType::Deleted,
            decreases changed_files@.len() - i,
        {
            let ghost had = strs(out@);
            let file = &changed_files[i];
            if file.change_type != ChangeType::Deleted {
                out.push(file.path.clone());
                assert(strs(out@) == had.push(file.path@));
                assert(strs(out@)[had.len() as int] == file.path@);
            }
            proof {
                let now = strs(out@);
                assert forall|p: Seq<char>| #[trigger] now.contains(p) <==> exists|j: int|
                    0 <= j < i + 1 && (#[trigger] changed_files@[j]).path@ == p
                        && changed_files@[j].change_type != ChangeType::Deleted by {
                    if now.contains(p) {
                        let k = choose|k: int| 0 <= k < now.len() && now[k] == p;
                        if k < had.len() {
                            assert(had[k] == p);
                            assert(had.contains(p));
                            let j = choose|j: int|
                                0 <= j < i && (#[trigger] changed_files@[j]).path@ == p
                                    && changed_files@[j].change_type != ChangeType::Deleted;
                            assert(changed_files@[j].path@ == p);
                        } else {
                            assert(changed_files@[i as int].path@ == p);
                        }
                    }
                    if had.contains(p) {
                        let k = choose|k: int| 0 <= k < had.len() && had[k] == p;
                        assert(now[k] == p);
                    }
                }
            }
            i += 1;
        }
        let ghost direct = strs(out@);
        let mut more = self.find_files_connected_to_changes(changed_files, rows, types);
        let ghost others = strs(more@);
        out.append(&mut more);
        proof {
            let all = strs(out@);
            assert(all =~= direct + others);
            lemma_joined_contains(direct, others);
            lemma_firsts(all);
        }
        distinct(out)
    }
}

/// A deleted file is not scanned, unless it changed in another way as well; every other
/// changed file is.
pub proof fn law_changed_files_are_scanned(
    changed: Seq<ChangedFile>,
    rows: Seq<FunctionRow>,
    types: Seq<TypeRow>,
    i: int,
)
    requires
        0 <= i < changed.len(),
    ensures
        changed[i].change_type != ChangeType::Deleted ==> is_changed_file(changed, changed[i].path@),
        (forall|j: int|
            0 <= j < changed.len() && (#[trigger] changed[j]).path@ == changed[i].path@
                ==> changed[j].change_type == ChangeType::Deleted) ==> !(is_changed_file(
            changed,
            changed[i].path@,
        ) || (connected_to_changes(rows, types, changed, changed[i].path@) && !is_changed(
            changed,
            changed[i].path@,
        ))),
{
    assert(is_changed(changed, changed[i].path@));
}

/// Nothing is scanned where nothing changed.
pub proof fn law_no_change_no_scan(
    rows: Seq<FunctionRow>,
    types: Seq<TypeRow>,
    path: Seq<char>,
)
    ensures
        !is_changed_file(Seq::empty(), path),
        !connected_to_changes(rows, types, Seq::empty(), path),
{
    lemma_no_change(call_links(rows), path);
    lemma_no_change(type_links(rows, types), path);
}

proof fn lemma_no_change(all: Seq<Link>, path: Seq<char>)
    ensures
        !connected(all, Seq::empty(), path),
{
    let none = Seq::<ChangedFile>::empty();
    assert forall|p: Seq<char>| !is_changed(none, p) by {}
    if connected(all, none, path) {
        let i = choose|i: int|
            0 <= i < all.len() && (#[trigger] all[i]).file_path == path && touches_changed(
                all,
                none,
                all[i],
            );
        let l = all[i];
        if exists|k: int|
            0 <= k < l.uses.len() && defined_in_changed(all, none, #[trigger] l.uses[k]) {
            let k = choose|k: int|
                0 <= k < l.uses.len() && defined_in_changed(all, none, #[trigger] l.uses[k]);
            let m = choose|m: int|
                0 <= m < all.len() && is_changed(none, (#[trigger] all[m]).file_path)
                    && all[m].defines == Some(l.uses[k]);
            assert(!is_changed(none, all[m].file_path));
        } else {
            let m = choose|m: int|
                0 <= m < all.len() && is_changed(none, (#[trigger] all[m]).file_path)
                    && all[m].uses.contains(l.defines->0);
            assert(!is_changed(none, all[m].file_path));
        }
    }
}

/// Whether a part of a file that is asked about and a part of a changed file are connected:
/// the one uses the name that the other defines.
spec fn tied(all: Seq<Link>, changed: Seq<ChangedFile>, path: Seq<char>, i: int, j: int) -> bool {
    &&& 0 <= i < all.len()
    &&& 0 <= j < all.len()
    &&& all[i].file_path == path
    &&& is_changed(changed, all[j].file_path)
    &&& {
        ||| all[j].defines is Some && all[i].uses.contains(all[j].defines->0)
        ||| all[i].defines is Some && all[j].uses.contains(all[i].defines->0)
    }
}

proof fn lemma_tied(all: Seq<Link>, changed: Seq<ChangedFile>, path: Seq<char>)
    ensures
        connected(all, changed, path) <==> exists|i: int, j: int| tied(all, changed, path, i, j),
{
    if connected(all, changed, path) {
        let i = choose|i: int|
            0 <= i < all.len() && (#[trigger] all[i]).file_path == path && touches_changed(
                all,
                changed,
                all[i],
            );
        if exists|k: int|
            0 <= k < all[i].uses.len() && defined_in_changed(all, changed, #[trigger] all[i].uses[k]) {
            let k = choose|k: int|
                0 <= k < all[i].uses.len() && defined_in_changed(
                    all,
                    changed,
                    #[trigger] all[i].uses[k],
                );
            let name = all[i].uses[k];
            let j = choose|j: int|
                0 <= j < all.len() && is_changed(changed, (#[trigger] all[j]).file_path)
                    && all[j].defines == Some(name);
            assert(tied(all, changed, path, i, j));
        } else {
            let name = all[i].defines->0;
            let j = choose|j: int|
                0 <= j < all.len() && is_changed(changed, (#[trigger] all[j]).file_path)
                    && all[j].uses.contains(name);
            assert(tied(all, changed, path, i, j));
        }
    }
    if exists|i: int, j: int| tied(all, changed, path, i, j) {
        let (i, j) = choose|i: int, j: int| tied(all, changed, path, i, j);
        if all[j].defines is Some && all[i].uses.contains(all[j].defines->0) {
            let name = all[j].defines->0;
            assert(defined_in_changed(all, changed, name)) by {
                assert(is_changed(changed, all[j].file_path));
            }
            let k = choose|k: int| 0 <= k < all[i].uses.len() && all[i].uses[k] == name;
            assert(defined_in_changed(all, changed, all[i].uses[k]));
        } else {
            assert(used_by_changed(all, changed, all[i].defines->0)) by {
                assert(is_changed(changed, all[j].file_path));
            }
        }
        assert(touches_changed(all, changed, all[i]));
    }
}

/// A file is connected to changed ones by calls exactly where a function in it calls one of a
/// changed file, or is called by one.
pub proof fn law_connected_by_calls(
    rows: Seq<FunctionRow>,
    changed: Seq<ChangedFile>,
    path: Seq<char>,
)
    ensures
        connected(call_links(rows), changed, path) <==> exists|i: int, j: int, c: int|
            0 <= i < rows.len() && 0 <= j < rows.len() && 0 <= c < changed.len() && (
            #[trigger] rows[i]).file_path@ == path && (#[trigger] changed[c]).path@ == (
            #[trigger] rows[j]).file_path@ && (listed(rows[i].calls).contains(rows[j].name@) || listed(
                rows[j].calls,
            ).contains(rows[i].name@)),
{
    let all = call_links(rows);
    lemma_tied(all, changed, path);
    if exists|i: int, j: int| tied(all, changed, path, i, j) {
        let (i, j) = choose|i: int, j: int| tied(all, changed, path, i, j);
        let c = choose|c: int| 0 <= c < changed.len() && (#[trigger] changed[c]).path@ == all[j].file_path;
        assert(rows[i].file_path@ == path && changed[c].path@ == rows[j].file_path@);
    }
    if exists|i: int, j: int, c: int|
        0 <= i < rows.len() && 0 <= j < rows.len() && 0 <= c < changed.len() && (
        #[trigger] rows[i]).file_path@ == path && (#[trigger] changed[c]).path@ == (
        #[trigger] rows[j]).file_path@ && (listed(rows[i].calls).contains(rows[j].name@) || listed(
            rows[j].calls,
        ).contains(rows[i].name@)) {
        let (i, j, c) = choose|i: int, j: int, c: int|
            0 <= i < rows.len() && 0 <= j < rows.len() && 0 <= c < changed.len() && (
            #[trigger] rows[i]).file_path@ == path && (#[trigger] changed[c]).path@ == (
            #[trigger] rows[j]).file_path@ && (listed(rows[i].calls).contains(rows[j].name@) || listed(
                rows[j].calls,
            ).contains(rows[i].name@));
        assert(is_changed(changed, all[j].file_path));
        assert(tied(all, changed, path, i, j));
    }
}

/// A file is connected to changed ones by types exactly where a function or a type in it uses
/// a type of a changed file, or where it has a type that a function or a type of a changed
/// file uses.
pub proof fn law_connected_by_types(
    functions: Seq<FunctionRow>,
    types: Seq<TypeRow>,
    changed: Seq<ChangedFile>,
    path: Seq<char>,
)
    ensures
        connected(type_links(functions, types), changed, path) <==> {
            ||| exists|i: int, j: int|
                0 <= i < functions.len() && 0 <= j < types.len() && (
                #[trigger] functions[i]).file_path@ == path && is_changed(
                    changed,
                    (#[trigger] types[j]).file_path@,
                ) && listed(functions[i].types).contains(types[j].name@)
            ||| exists|i: int, j: int|
                0 <= i < types.len() && 0 <= j < functions.len() && (#[trigger] types[i]).file_path@
                    == path && is_changed(changed, (#[trigger] functions[j]).file_path@) && listed(
                    functions[j].types,
                ).contains(types[i].name@)
            ||| exists|i: int, j: int|
                0 <= i < types.len() && 0 <= j < types.len() && (#[trigger] types[i]).file_path@ == path
                    && is_changed(changed, (#[trigger] types[j]).file_path@) && (listed(
                    types[i].types,
                ).contains(types[j].name@) || listed(types[j].types).contains(types[i].name@))
        },
{
    let all = type_links(functions, types);
    let n = functions.len() as int;
    lemma_tied(all, changed, path);
    assert(all.len() == n + types.len());
    assert forall|i: int| 0 <= i < n implies (#[trigger] all[i]).defines is None && all[i].file_path
        == functions[i].file_path@ && all[i].uses == listed(functions[i].types) by {}
    assert forall|i: int| 0 <= i < types.len() implies all[n + i].defines == Some(
        (#[trigger] types[i]).name@,
    ) && all[n + i].file_path == types[i].file_path@ && all[n + i].uses == listed(types[i].types) by {}
    if exists|i: int, j: int| tied(all, changed, path, i, j) {
        let (i, j) = choose|i: int, j: int| tied(all, changed, path, i, j);
        if i < n {
            assert(j >= n);
            assert(types[j - n].file_path@ == all[j].file_path);
            assert(functions[i].file_path@ == path && is_changed(changed, types[j - n].file_path@));
        } else if j < n {
            assert(types[i - n].file_path@ == path && is_changed(changed, functions[j].file_path@));
        } else {
            assert(types[j - n].file_path@ == all[j].file_path);
            assert(types[i - n].file_path@ == path && is_changed(changed, types[j - n].file_path@));
        }
    }
    if exists|i: int, j: int|
        0 <= i < functions.len() && 0 <= j < types.len() && (#[trigger] functions[i]).file_path@ == path
            && is_changed(changed, (#[trigger] types[j]).file_path@) && listed(
            functions[i].types,
        ).contains(types[j].name@) {
        let (i, j) = choose|i: int, j: int|
            0 <= i < functions.len() && 0 <= j < types.len() && (#[trigger] functions[i]).file_path@
                == path && is_changed(changed, (#[trigger] types[j]).file_path@) && listed(
                functions[i].types,
            ).contains(types[j].name@);
        assert(tied(all, changed, path, i, n + j));
    }
    if exists|i: int, j: int|
        0 <= i < types.len() && 0 <= j < functions.len() && (#[trigger] types[i]).file_path@ == path
            && is_changed(changed, (#[trigger] functions[j]).file_path@) && listed(
            functions[j].types,
        ).contains(types[i].name@) {
        let (i, j) = choose|i: int, j: int|
            0 <= i < types.len() && 0 <= j < functions.len() && (#[trigger] types[i]).file_path@ == path
                && is_changed(changed, (#[trigger] functions[j]).file_path@) && listed(
                functions[j].types,
            ).contains(types[i].name@);
        assert(tied(all, changed, path, n + i, j));
    }
    if exists|i: int, j: int|
        0 <= i < types.len() && 0 <= j < types.len() && (#[trigger] types[i]).file_path@ == path
            && is_changed(changed, (#[trigger] types[j]).file_path@) && (listed(
            types[i].types,
        ).contains(types[j].name@) || listed(types[j].types).contains(types[i].name@)) {
        let (i, j) = choose|i: int, j: int|
            0 <= i < types.len() && 0 <= j < types.len() && (#[trigger] types[i]).file_path@ == path
                && is_changed(changed, (#[trigger] types[j]).file_path@) && (listed(
                types[i].types,
            ).contains(types[j].name@) || listed(types[j].types).contains(types[i].name@));
        assert(tied(all, changed, path, n + i, n + j));
    }
}

/// A file is to be scanned where it changed, in whatever way but by being deleted, or where it
/// is connected to a changed file by calls or by types and has not changed itself.
pub proof fn law_changed(changed: Seq<ChangedFile>, path: Seq<char>)
    ensures
        is_changed(changed, path) <==> exists|c: int|
            0 <= c < changed.len() && (#[trigger] changed[c]).path@ == path,
        is_changed_file(changed, path) <==> exists|c: int|
            0 <= c < changed.len() && (#[trigger] changed[c]).path@ == path && (
            changed[c].change_type == ChangeType::Added || changed[c].change_type
                == ChangeType::Modified || changed[c].change_type == ChangeType::Renamed),
{
    if is_changed_file(changed, path) {
        let c = choose|c: int|
            0 <= c < changed.len() && (#[trigger] changed[c]).path@ == path && changed[c].change_type
                != ChangeType::Deleted;
        assert(changed[c].path@ == path);
    }
    if exists|c: int|
        0 <= c < changed.len() && (#[trigger] changed[c]).path@ == path && (changed[c].change_type
            == ChangeType::Added || changed[c].change_type == ChangeType::Modified
            || changed[c].change_type == ChangeType::Renamed) {
        let c = choose|c: int|
            0 <= c < changed.len() && (#[trigger] changed[c]).path@ == path && (
            changed[c].change_type == ChangeType::Added || changed[c].change_type
                == ChangeType::Modified || changed[c].change_type == ChangeType::Renamed);
        assert(changed[c].path@ == path);
    }
}

/// A file is connected to changed ones where it is by calls or by types.
pub proof fn law_connected_to_changes(
    functions: Seq<FunctionRow>,
    types: Seq<TypeRow>,
    changed: Seq<ChangedFile>,
    path: Seq<char>,
)
    ensures
        connected_to_changes(functions, types, changed, path) <==> connected(
            call_links(functions),
            changed,
            path,
        ) || connected(type_links(functions, types), changed, path),
{
}

} // verus!
