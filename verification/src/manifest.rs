//! Which files a commit holds, and with which contents.
use crate::database::DatabaseManager;
use crate::functions::{calls_of, is_best, FunctionInfo};
use crate::lists::{lemma_filter_step, NameSet};
use crate::text::{
    has_part, is_member, joined, law_split_on, lemma_strs_empty, lemma_strs_push, occurs_at,
    replace_all, replaced, same, split_on, strs,
};
use vstd::hash_map::StringHashMap;
use vstd::prelude::*;

verus! {

broadcast use {lemma_strs_push, lemma_strs_empty};

/// The files of a commit: for each path the hash of its contents.
pub struct Manifest {
    paths: Vec<String>,
    hashes: StringHashMap<String>,
}

impl View for Manifest {
    type V = Map<Seq<char>, Seq<char>>;

    closed spec fn view(&self) -> Map<Seq<char>, Seq<char>> {
        Map::new(|k: Seq<char>| self.hashes@.contains_key(k), |k: Seq<char>| self.hashes@[k]@)
    }
}

/// A list of paths and hashes as a map; of two hashes for one path the later counts.
pub open spec fn pairs_map(pairs: Seq<(String, String)>) -> Map<Seq<char>, Seq<char>>
    decreases pairs.len(),
{
    if pairs.len() == 0 {
        Map::empty()
    } else {
        pairs_map(pairs.drop_last()).insert(pairs.last().0@, pairs.last().1@)
    }
}

/// A list of paths and hashes as a map, with each double slash in a path made one.
pub open spec fn tree_map(entries: Seq<(String, String)>) -> Map<Seq<char>, Seq<char>>
    decreases entries.len(),
{
    if entries.len() == 0 {
        Map::empty()
    } else {
        tree_map(entries.drop_last()).insert(
            replaced(entries.last().0@, "//"@, "/"@),
            entries.last().1@,
        )
    }
}

/// Whether a commit holds a file with this path and these contents.
pub open spec fn holds_file(m: Map<Seq<char>, Seq<char>>, path: Seq<char>, hash: Seq<char>) -> bool {
    m.contains_key(path) && m[path] == hash
}

/// Whether a version of a function is the one of a commit.
pub open spec fn at_commit(m: Map<Seq<char>, Seq<char>>, f: FunctionInfo) -> bool {
    holds_file(m, f.file_path@, f.git_file_hash@)
}

/// Whether some file of a commit has these contents.
pub open spec fn holds_hash(m: Map<Seq<char>, Seq<char>>, hash: Seq<char>) -> bool {
    exists|path: Seq<char>| #[trigger] holds_file(m, path, hash)
}

impl Manifest {
    /// Each path is listed.
    pub closed spec fn wf(self) -> bool {
        forall|k: Seq<char>|
            self.hashes@.contains_key(k) <==> #[trigger] strs(self.paths@).contains(k)
    }

    /// The manifest without files.
    pub fn new() -> (r: Manifest)
        ensures
            r.wf(),
            r@ == Map::<Seq<char>, Seq<char>>::empty(),
    {
        let r = Manifest { paths: Vec::new(), hashes: StringHashMap::new() };
        proof {
            assert(r@ =~= Map::empty());
        }
        r
    }

    /// Notes a file; an earlier hash for its path is forgotten.
    pub fn insert(&mut self, path: String, hash: String)
        requires
            old(self).wf(),
        ensures
            final(self).wf(),
            final(self)@ == old(self)@.insert(path@, hash@),
    {
        let ghost had = strs(self.paths@);
        let ghost was = self.hashes@;
        if !self.hashes.contains_key(path.as_str()) {
            self.paths.push(path.clone());
            proof {
                let now = strs(self.paths@);
                assert(now == had.push(path@));
                assert forall|k: Seq<char>|
                    was.insert(path@, hash).contains_key(k) <==> #[trigger] now.contains(k) by {
                    if had.contains(k) {
                        let i = choose|i: int| 0 <= i < had.len() && had[i] == k;
                        assert(now[i] == k);
                    }
                    if k == path@ {
                        assert(now[had.len() as int] == k);
                    }
                    if now.contains(k) && k != path@ {
                        let i = choose|i: int| 0 <= i < now.len() && now[i] == k;
                        assert(had[i] == k);
                        assert(had.contains(k));
                    }
                }
            }
        } else {
            proof {
                assert(had.contains(path@));
            }
        }
        self.hashes.insert(path, hash);
        proof {
            assert(self@ =~= old(self)@.insert(path@, hash@));
        }
    }

    /// The manifest of a list of paths and hashes.
    pub fn from_pairs(pairs: Vec<(String, String)>) -> (r: Manifest)
        ensures
            r.wf(),
            r@ == pairs_map(pairs@),
    {
        let mut m = Manifest::new();
        let mut i: usize = 0;
        while i < pairs.len()
            invariant
                i <= pairs@.len(),
                m.wf(),
                m@ == pairs_map(pairs@.take(i as int)),
            decreases pairs@.len() - i,
        {
            proof {
                assert(pairs@.take(i + 1).drop_last() =~= pairs@.take(i as int));
            }
            m.insert(pairs[i].0.clone(), pairs[i].1.clone());
            i += 1;
        }
        proof {
            assert(pairs@.take(i as int) =~= pairs@);
        }
        m
    }

    /// Whether there is no file.
    pub fn is_empty(&self) -> (r: bool)
        requires
            self.wf(),
        ensures
            r == (self@ == Map::<Seq<char>, Seq<char>>::empty()),
    {
        proof {
            if self.paths@.len() == 0 {
                assert forall|k: Seq<char>| !self@.contains_key(k) by {
                    if self.hashes@.contains_key(k) {
                        assert(strs(self.paths@).contains(k));
                    }
                }
                assert(self@ =~= Map::empty());
            } else {
                let k = self.paths@[0]@;
                assert(strs(self.paths@)[0] == k);
                assert(strs(self.paths@).contains(k));
                assert(self@.contains_key(k));
                assert(!Map::<Seq<char>, Seq<char>>::empty().contains_key(k));
            }
        }
        self.paths.len() == 0
    }

    /// Whether there is a file with this path and these contents.
    pub fn holds(&self, path: &str, hash: &str) -> (r: bool)
        ensures
            r == holds_file(self@, path@, hash@),
    {
        match self.hashes.get(path) {
            Some(found) => same(found.as_str(), hash),
            None => false,
        }
    }

    /// The contents of all files.
    pub fn all_hashes(&self) -> (r: NameSet)
        requires
            self.wf(),
        ensures
            forall|h: Seq<char>| #[trigger] r@.contains(h) <==> holds_hash(self@, h),
    {
        let mut out: NameSet = NameSet::new();
        let ghost all = strs(self.paths@);
        let mut i: usize = 0;
        while i < self.paths.len()
            invariant
                i <= self.paths@.len(),
                self.wf(),
                all == strs(self.paths@),
                forall|h: Seq<char>| #[trigger]
                    out@.contains(h) <==> exists|j: int|
                        0 <= j < i && holds_file(self@, #[trigger] all[j], h),
            decreases self.paths@.len() - i,
        {
            let ghost was = out@;
            let ghost path = all[i as int];
            assert(all.contains(path));
            if let Some(hash) = self.hashes.get(self.paths[i].as_str()) {
                out.insert(hash.clone());
                proof {
                    assert(holds_file(self@, path, hash@));
                    assert forall|h: Seq<char>| #[trigger]
                        out@.contains(h) <==> exists|j: int|
                            0 <= j < i + 1 && holds_file(self@, #[trigger] all[j], h) by {
                        if was.contains(h) {
                            let j = choose|j: int|
                                0 <= j < i && holds_file(self@, #[trigger] all[j], h);
                            assert(holds_file(self@, all[j], h));
                        }
                        if h == hash@ {
                            assert(holds_file(self@, all[i as int], h));
                        }
                    }
                }
            }
            i += 1;
        }
        proof {
            assert forall|h: Seq<char>| #[trigger] out@.contains(h) <==> holds_hash(self@, h) by {
                if holds_hash(self@, h) {
                    let path = choose|path: Seq<char>| #[trigger] holds_file(self@, path, h);
                    assert(all.contains(path));
                    let j = choose|j: int| 0 <= j < all.len() && all[j] == path;
                    assert(holds_file(self@, all[j], h));
                }
            }
        }
        out
    }
}

impl DatabaseManager {
    /// The manifest of a commit, from a walk through its tree.
    pub fn generate_git_manifest(&self, entries: Vec<(String, String)>) -> (r: Manifest)
        ensures
            r.wf(),
            r@ == tree_map(entries@),
    {
        let mut m = Manifest::new();
        let mut i: usize = 0;
        proof {
            reveal_strlit("//");
        }
        while i < entries.len()
            invariant
                i <= entries@.len(),
                "//"@.len() > 0,
                m.wf(),
                m@ == tree_map(entries@.take(i as int)),
            decreases entries@.len() - i,
        {
            proof {
                assert(entries@.take(i + 1).drop_last() =~= entries@.take(i as int));
            }
            let path = replace_all(entries[i].0.as_str(), "//", "/");
            m.insert(path, entries[i].1.clone());
            i += 1;
        }
        proof {
            assert(entries@.take(i as int) =~= entries@);
        }
        m
    }

    /// Whether some version of a function is the one of a commit.
    pub fn function_exists_in_manifest(
        &self,
        all_functions: &Vec<FunctionInfo>,
        git_manifest: &Manifest,
    ) -> (r: bool)
        ensures
            r == exists|i: int|
                0 <= i < all_functions@.len() && at_commit(
                    git_manifest@,
                    #[trigger] all_functions@[i],
                ),
    {
        let mut i: usize = 0;
        while i < all_functions.len()
            invariant
                i <= all_functions@.len(),
                forall|j: int|
                    0 <= j < i ==> !at_commit(git_manifest@, #[trigger] all_functions@[j]),
            decreases all_functions@.len() - i,
        {
            let f = &all_functions[i];
            if git_manifest.holds(f.file_path.as_str(), f.git_file_hash.as_str()) {
                assert(at_commit(git_manifest@, all_functions@[i as int]));
                return true;
            }
            i += 1;
        }
        false
    }

    fn filter_by_manifest(&self, functions: Vec<FunctionInfo>, git_manifest: &Manifest) -> (r: Vec<
        FunctionInfo,
    >)
        ensures
            r@ == functions@.filter(|f: FunctionInfo| at_commit(git_manifest@, f)),
    {
        let ghost all = functions@;
        let ghost keep = |f: FunctionInfo| at_commit(git_manifest@, f);
        let mut kept: Vec<FunctionInfo> = Vec::new();
        let ghost mut i: int = 0;
        proof {
            reveal(Seq::filter);
            assert(all.take(0).filter(keep) =~= Seq::empty());
        }
        for f in it: functions.into_iter()
            invariant
                it.seq() == all,
                i == it.index(),
                keep == (|f: FunctionInfo| at_commit(git_manifest@, f)),
                kept@ == all.take(i).filter(keep),
        {
            proof {
                reveal(Seq::filter);
                assert(all.take(i + 1).drop_last() =~= all.take(i));
                assert(all.take(i + 1).last() == f);
                i = i + 1;
            }
            if git_manifest.holds(f.file_path.as_str(), f.git_file_hash.as_str()) {
                kept.push(f);
            }
        }
        proof {
            assert(all.take(i) =~= all);
        }
        kept
    }

    /// The functions that the best version of a function at a commit calls.
    pub fn get_function_callees_with_manifest(
        &self,
        all_matches: Vec<FunctionInfo>,
        git_manifest: &Manifest,
    ) -> (r: Vec<String>)
        ensures
            ({
                let there = all_matches@.filter(|f: FunctionInfo| at_commit(git_manifest@, f));
                &&& there.len() == 0 ==> r@.len() == 0
                &&& there.len() > 0 ==> exists|k: int| #[trigger]
                    is_best(there, k) && strs(r@) == calls_of(there[k])
            }),
    {
        let there = self.filter_by_manifest(all_matches, git_manifest);
        self.get_function_callees(there)
    }

    /// Starts a search for the callers of a function at a commit; without one given
    /// it is the current one.
    pub fn find_callers_efficient(&self, git_sha: Option<String>) -> (r: CallerSearch)
        ensures
            r == (match git_sha {
                Some(sha) => CallerSearch::NeedManifest { git_sha: sha },
                None => CallerSearch::NeedCurrentSha,
            }),
    {
        match git_sha {
            Some(sha) => CallerSearch::NeedManifest { git_sha: sha },
            None => CallerSearch::NeedCurrentSha,
        }
    }

    /// Starts a search for the callers of a function, whatever commit they are from.
    pub fn find_callers_non_git_aware(&self) -> (r: CallerSearch)
        ensures
            r == (CallerSearch::NeedCallers { manifest: None }),
    {
        CallerSearch::NeedCallers { manifest: None }
    }
}

/// Where a search for callers stands.
pub enum CallerSearch {
    /// The current commit is wanted.
    NeedCurrentSha,
    /// The manifest of this commit is wanted.
    NeedManifest { git_sha: String },
    /// The names of all callers are wanted.
    NeedCallers { manifest: Option<Manifest> },
    /// The functions of these names are wanted.
    NeedDetails { names: Vec<String>, manifest: Option<Manifest> },
    /// These are the callers.
    Done { callers: Vec<FunctionInfo> },
}

/// The callers among the functions found for names: those of the commit, or all of
/// them where there is no commit to go by.
pub open spec fn callers_among(
    functions: Seq<FunctionInfo>,
    names: Seq<Seq<char>>,
    manifest: Option<Map<Seq<char>, Seq<char>>>,
) -> Seq<FunctionInfo> {
    match manifest {
        Some(m) => functions.filter(
            |f: FunctionInfo| names.contains(f.name@) && at_commit(m, f),
        ),
        None => functions,
    }
}

/// The map of an optional manifest.
pub open spec fn opt_map(manifest: Option<Manifest>) -> Option<Map<Seq<char>, Seq<char>>> {
    match manifest {
        Some(m) => Some(m@),
        None => None,
    }
}

impl CallerSearch {
    /// Goes on with the current commit; without one every version counts.
    pub fn on_current_sha(self, current: Option<String>) -> (r: CallerSearch)
        ensures
            r == (match self {
                CallerSearch::NeedCurrentSha => match current {
                    Some(sha) => CallerSearch::NeedManifest { git_sha: sha },
                    None => CallerSearch::NeedCallers { manifest: None },
                },
                other => other,
            }),
    {
        match self {
            CallerSearch::NeedCurrentSha => match current {
                Some(sha) => CallerSearch::NeedManifest { git_sha: sha },
                None => CallerSearch::NeedCallers { manifest: None },
            },
            other => other,
        }
    }

    /// Goes on with the manifest of the commit; a commit without files has no callers.
    pub fn on_manifest(self, manifest: Manifest) -> (r: CallerSearch)
        requires
            manifest.wf(),
        ensures
            match self {
                CallerSearch::NeedManifest { .. } => if manifest@ == Map::<
                    Seq<char>,
                    Seq<char>,
                >::empty() {
                    r is Done && r->callers@.len() == 0
                } else {
                    r == (CallerSearch::NeedCallers { manifest: Some(manifest) })
                },
                other => r == other,
            },
    {
        match self {
            CallerSearch::NeedManifest { .. } => if manifest.is_empty() {
                CallerSearch::Done { callers: Vec::new() }
            } else {
                CallerSearch::NeedCallers { manifest: Some(manifest) }
            },
            other => other,
        }
    }

    /// Goes on with the names of all callers; without any the search is over.
    pub fn on_callers(self, names: Vec<String>) -> (r: CallerSearch)
        ensures
            match self {
                CallerSearch::NeedCallers { manifest } => if names@.len() == 0 {
                    r is Done && r->callers@.len() == 0
                } else {
                    r == (CallerSearch::NeedDetails { names, manifest })
                },
                other => r == other,
            },
    {
        match self {
            CallerSearch::NeedCallers { manifest } => if names.len() == 0 {
                CallerSearch::Done { callers: Vec::new() }
            } else {
                CallerSearch::NeedDetails { names, manifest }
            },
            other => other,
        }
    }

    /// Ends with the functions of those names.
    pub fn on_details(self, functions: Vec<FunctionInfo>) -> (r: CallerSearch)
        ensures
            match self {
                CallerSearch::NeedDetails { names, manifest } => r is Done && r->callers@
                    == callers_among(functions@, strs(names@), opt_map(manifest)),
                other => r == other,
            },
    {
        match self {
            CallerSearch::NeedDetails { names, manifest } => match manifest {
                Some(m) => CallerSearch::Done { callers: named_at_commit(functions, &names, &m) },
                None => CallerSearch::Done { callers: functions },
            },
            other => other,
        }
    }
}

/// Where the functions found have distinct names, so have the callers; and every caller is
/// one of the functions found.
pub proof fn law_callers_once(
    functions: Seq<FunctionInfo>,
    names: Seq<Seq<char>>,
    manifest: Option<Map<Seq<char>, Seq<char>>>,
)
    requires
        function_names(functions).no_duplicates(),
    ensures
        function_names(callers_among(functions, names, manifest)).no_duplicates(),
        forall|i: int|
            0 <= i < callers_among(functions, names, manifest).len() ==> functions.contains(
                #[trigger] callers_among(functions, names, manifest)[i],
            ),
{
    let callers = callers_among(functions, names, manifest);
    match manifest {
        Some(m) => {
            let keep = |f: FunctionInfo| names.contains(f.name@) && at_commit(m, f);
            lemma_names_stay_distinct(functions, keep);
            assert forall|i: int| 0 <= i < callers.len() implies functions.contains(
                #[trigger] callers[i],
            ) by {
                functions.lemma_filter_contains_rev(keep, callers[i]);
            }
        },
        None => {},
    }
}

/// The names of functions.
pub open spec fn function_names(functions: Seq<FunctionInfo>) -> Seq<Seq<char>> {
    functions.map_values(|f: FunctionInfo| f.name@)
}

proof fn lemma_names_stay_distinct(
    functions: Seq<FunctionInfo>,
    keep: spec_fn(FunctionInfo) -> bool,
)
    requires
        function_names(functions).no_duplicates(),
    ensures
        function_names(functions.filter(keep)).no_duplicates(),
        forall|x: Seq<char>| #[trigger]
            function_names(functions.filter(keep)).contains(x) ==> function_names(
                functions,
            ).contains(x),
    decreases functions.len(),
{
    reveal(Seq::filter);
    if functions.len() > 0 {
        let rest = functions.drop_last();
        let last = functions.last();
        let all = function_names(functions);
        assert(function_names(rest) =~= all.drop_last());
        assert forall|i: int, j: int|
            0 <= i < rest.len() && 0 <= j < rest.len() && i != j implies function_names(rest)[i]
            != function_names(rest)[j] by {
            assert(all[i] != all[j]);
        }
        lemma_names_stay_distinct(rest, keep);
        let few = function_names(rest.filter(keep));
        let now = function_names(functions.filter(keep));
        if keep(last) {
            assert(now =~= few.push(last.name@));
            if few.contains(last.name@) {
                assert(function_names(rest).contains(last.name@));
                let k = choose|k: int|
                    0 <= k < function_names(rest).len() && function_names(rest)[k] == last.name@;
                assert(all[k] == all[all.len() - 1]);
            }
        }
        assert forall|x: Seq<char>| #[trigger] now.contains(x) implies all.contains(x) by {
            if few.contains(x) {
                assert(function_names(rest).contains(x));
                let k = choose|k: int|
                    0 <= k < function_names(rest).len() && function_names(rest)[k] == x;
                assert(all[k] == x);
            } else {
                assert(all[all.len() - 1] == last.name@);
            }
        }
    }
}

fn named_at_commit(functions: Vec<FunctionInfo>, names: &Vec<String>, m: &Manifest) -> (r: Vec<
    FunctionInfo,
>)
    ensures
        r@ == callers_among(functions@, strs(names@), Some(m@)),
{
    let ghost all = functions@;
    let ghost keep = |f: FunctionInfo| strs(names@).contains(f.name@) && at_commit(m@, f);
    let mut kept: Vec<FunctionInfo> = Vec::new();
    let ghost mut i: int = 0;
    proof {
        reveal(Seq::filter);
        assert(all.take(0).filter(keep) =~= Seq::empty());
    }
    for f in it: functions.into_iter()
        invariant
            it.seq() == all,
            i == it.index(),
            keep == (|f: FunctionInfo| strs(names@).contains(f.name@) && at_commit(m@, f)),
            kept@ == all.take(i).filter(keep),
    {
        proof {
            reveal(Seq::filter);
            assert(all.take(i + 1).drop_last() =~= all.take(i));
            assert(all.take(i + 1).last() == f);
            i = i + 1;
        }
        if is_member(names, f.name.as_str()) && m.holds(
            f.file_path.as_str(),
            f.git_file_hash.as_str(),
        ) {
            kept.push(f);
        }
    }
    proof {
        assert(all.take(i) =~= all);
    }
    kept
}

/// Every callee list at a commit comes from a version that the commit holds.
pub proof fn law_best_at_commit(all: Seq<FunctionInfo>, m: Map<Seq<char>, Seq<char>>, k: int)
    requires
        is_best(all.filter(|f: FunctionInfo| at_commit(m, f)), k),
    ensures
        at_commit(m, all.filter(|f: FunctionInfo| at_commit(m, f))[k]),
        all.contains(all.filter(|f: FunctionInfo| at_commit(m, f))[k]),
{
    let keep = |f: FunctionInfo| at_commit(m, f);
    all.lemma_filter_pred(keep, k);
    assert(all.filter(keep).contains(all.filter(keep)[k]));
    all.lemma_filter_contains_rev(keep, all.filter(keep)[k]);
}

/// A text that does not hold a part is left as it is when that part is replaced.
proof fn lemma_nothing_replaced(s: Seq<char>, from: Seq<char>, to: Seq<char>)
    requires
        !has_part(s, from),
        from.len() > 0,
    ensures
        replaced(s, from, to) == s,
    decreases s.len(),
{
    if s.len() > 0 {
        assert(!occurs_at(s, from, 0));
        let rest = s.drop_first();
        assert forall|at: int| !occurs_at(rest, from, at) by {
            if occurs_at(rest, from, at) {
                assert(s.subrange(at + 1, at + 1 + from.len()) =~= rest.subrange(
                    at,
                    at + from.len(),
                ));
                assert(occurs_at(s, from, at + 1));
            }
        }
        lemma_nothing_replaced(rest, from, to);
        assert(seq![s[0]] + rest =~= s);
    }
}

/// The manifest of a tree whose paths hold no double slash is the map of its entries.
pub proof fn law_clean_paths_are_kept(entries: Seq<(String, String)>)
    requires
        forall|i: int| 0 <= i < entries.len() ==> !has_part((#[trigger] entries[i]).0@, "//"@),
    ensures
        tree_map(entries) == pairs_map(entries),
    decreases entries.len(),
{
    reveal_strlit("//");
    if entries.len() > 0 {
        let rest = entries.drop_last();
        assert forall|i: int| 0 <= i < rest.len() implies !has_part((#[trigger] rest[i]).0@, "//"@) by {
            assert(rest[i] == entries[i]);
        }
        law_clean_paths_are_kept(rest);
        assert(!has_part(entries[entries.len() - 1].0@, "//"@));
        lemma_nothing_replaced(entries.last().0@, "//"@, "/"@);
    }
}

/// A manifest gives each path the hash of its last entry, and holds no path without one. From
/// a tree a path is taken with each double slash made one.
pub proof fn law_manifest_entries(
    pairs: Seq<(String, String)>,
    path: Seq<char>,
    hash: Seq<char>,
)
    ensures
        holds_file(pairs_map(pairs), path, hash) <==> exists|i: int|
            0 <= i < pairs.len() && (#[trigger] pairs[i]).0@ == path && pairs[i].1@ == hash && (
            forall|j: int| i < j < pairs.len() ==> (#[trigger] pairs[j]).0@ != path),
        pairs_map(pairs).contains_key(path) <==> exists|i: int|
            0 <= i < pairs.len() && (#[trigger] pairs[i]).0@ == path,
    decreases pairs.len(),
{
    if pairs.len() > 0 {
        let few = pairs.drop_last();
        law_manifest_entries(few, path, hash);
        let n = pairs.len() - 1;
        assert(pairs[n] == pairs.last());
        if pairs.last().0@ == path {
            if exists|i: int|
                0 <= i < pairs.len() && (#[trigger] pairs[i]).0@ == path && pairs[i].1@ == hash && (
                forall|j: int| i < j < pairs.len() ==> (#[trigger] pairs[j]).0@ != path) {
                let i = choose|i: int|
                    0 <= i < pairs.len() && (#[trigger] pairs[i]).0@ == path && pairs[i].1@ == hash && (
                    forall|j: int| i < j < pairs.len() ==> (#[trigger] pairs[j]).0@ != path);
                assert(i == n);
            }
        } else {
            if holds_file(pairs_map(few), path, hash) {
                let i = choose|i: int|
                    0 <= i < few.len() && (#[trigger] few[i]).0@ == path && few[i].1@ == hash && (
                    forall|j: int| i < j < few.len() ==> (#[trigger] few[j]).0@ != path);
                assert(pairs[i] == few[i]);
                assert forall|j: int| i < j < pairs.len() implies (#[trigger] pairs[j]).0@ != path by {
                    if j < n {
                        assert(few[j].0@ != path);
                    }
                }
            }
            if exists|i: int|
                0 <= i < pairs.len() && (#[trigger] pairs[i]).0@ == path && pairs[i].1@ == hash && (
                forall|j: int| i < j < pairs.len() ==> (#[trigger] pairs[j]).0@ != path) {
                let i = choose|i: int|
                    0 <= i < pairs.len() && (#[trigger] pairs[i]).0@ == path && pairs[i].1@ == hash && (
                    forall|j: int| i < j < pairs.len() ==> (#[trigger] pairs[j]).0@ != path);
                assert(few[i] == pairs[i]);
                assert forall|j: int| i < j < few.len() implies (#[trigger] few[j]).0@ != path by {
                    assert(pairs[j].0@ != path);
                }
            }
            if pairs_map(few).contains_key(path) {
                let i = choose|i: int| 0 <= i < few.len() && (#[trigger] few[i]).0@ == path;
                assert(pairs[i].0@ == path);
            }
            if exists|i: int| 0 <= i < pairs.len() && (#[trigger] pairs[i]).0@ == path {
                let i = choose|i: int| 0 <= i < pairs.len() && (#[trigger] pairs[i]).0@ == path;
                assert(few[i].0@ == path);
            }
        }
    }
}

/// One more entry of a tree gives its path, with each double slash made one, its hash, and
/// leaves every other path as it was.
pub proof fn law_tree_entry(
    entries: Seq<(String, String)>,
    entry: (String, String),
    other: Seq<char>,
)
    ensures
        tree_map(Seq::<(String, String)>::empty()).dom() == Set::<Seq<char>>::empty(),
        holds_file(
            tree_map(entries.push(entry)),
            joined(split_on(entry.0@, "//"@), "/"@),
            entry.1@,
        ),
        other != joined(split_on(entry.0@, "//"@), "/"@) ==> (tree_map(
            entries.push(entry),
        ).contains_key(other) <==> tree_map(entries).contains_key(other)) && tree_map(
            entries.push(entry),
        )[other] == tree_map(entries)[other],
{
    reveal_strlit("//");
    law_split_on(entry.0@, "//"@, "/"@);
    assert(entries.push(entry).drop_last() =~= entries);
    assert(tree_map(Seq::<(String, String)>::empty()).dom() =~= Set::<Seq<char>>::empty());
}

/// A version of a function is that of a commit exactly where the commit has its file with its
/// contents; some file has contents exactly where a path is given them.
pub proof fn law_at_commit(m: Map<Seq<char>, Seq<char>>, f: FunctionInfo, hash: Seq<char>)
    ensures
        at_commit(m, f) <==> m.contains_key(f.file_path@) && m[f.file_path@] == f.git_file_hash@,
        holds_hash(m, hash) <==> exists|path: Seq<char>| #[trigger]
            m.contains_key(path) && m[path] == hash,
{
    if holds_hash(m, hash) {
        let path = choose|path: Seq<char>| #[trigger] holds_file(m, path, hash);
        assert(m.contains_key(path) && m[path] == hash);
    }
    if exists|path: Seq<char>| #[trigger] m.contains_key(path) && m[path] == hash {
        let path = choose|path: Seq<char>| #[trigger] m.contains_key(path) && m[path] == hash;
        assert(holds_file(m, path, hash));
    }
}

/// The callers among the functions found: without a commit all of them; at a commit exactly
/// those of the names asked for whose file the commit has with their contents.
pub proof fn law_callers_among(
    functions: Seq<FunctionInfo>,
    names: Seq<Seq<char>>,
    m: Map<Seq<char>, Seq<char>>,
    f: FunctionInfo,
)
    ensures
        callers_among(functions, names, None) == functions,
        callers_among(functions, names, Some(m)).contains(f) <==> functions.contains(f)
            && names.contains(f.name@) && m.contains_key(f.file_path@) && m[f.file_path@]
            == f.git_file_hash@,
{
    let keep = |f: FunctionInfo| names.contains(f.name@) && at_commit(m, f);
    let kept = functions.filter(keep);
    if kept.contains(f) {
        functions.lemma_filter_contains_rev(keep, f);
        let k = choose|k: int| 0 <= k < kept.len() && kept[k] == f;
        functions.lemma_filter_pred(keep, k);
    }
    if functions.contains(f) && keep(f) {
        let k = choose|k: int| 0 <= k < functions.len() && functions[k] == f;
        functions.lemma_filter_contains(keep, k);
    }
}

/// The map of an optional manifest is there exactly where the manifest is, and is its own.
pub proof fn law_opt_map(manifest: Option<Manifest>)
    ensures
        manifest is None <==> opt_map(manifest) is None,
        manifest matches Some(m) ==> opt_map(manifest) == Some(m@),
{
}

/// The callers at a commit come in the order of the functions found.
pub proof fn law_callers_in_order(
    functions: Seq<FunctionInfo>,
    f: FunctionInfo,
    names: Seq<Seq<char>>,
    m: Map<Seq<char>, Seq<char>>,
)
    ensures
        names.contains(f.name@) && m.contains_key(f.file_path@) && m[f.file_path@] == f.git_file_hash@
            ==> callers_among(functions.push(f), names, Some(m)) == callers_among(
            functions,
            names,
            Some(m),
        ).push(f),
        !(names.contains(f.name@) && m.contains_key(f.file_path@) && m[f.file_path@]
            == f.git_file_hash@) ==> callers_among(functions.push(f), names, Some(m))
            == callers_among(functions, names, Some(m)),
{
    lemma_filter_step(
        functions,
        f,
        |f: FunctionInfo| names.contains(f.name@) && at_commit(m, f),
    );
}

} // verus!
