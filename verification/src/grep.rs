//! Searching the bodies of functions.
use crate::calls::{escape_sql, sql_escaped};
use crate::database::DatabaseManager;
use crate::functions::FunctionInfo;
use crate::lists::{distinct, firsts, lemma_filter_step};
use crate::manifest::{at_commit, Manifest};
use crate::patterns::{
    compile, compiles, is_fault, matches_text, pattern_matches, pattern_outcome, PatternError,
};
use crate::text::{join, joined, lemma_strs_empty, lemma_strs_push, opt_text, strs};
use vstd::prelude::*;

verus! {

broadcast use {lemma_strs_push, lemma_strs_empty};

/// How many hashes one query holds where there are many.
pub const HASH_CHUNK_SIZE: usize = 500;

/// How many queries run at once at most.
pub const MAX_CONCURRENT_QUERIES: usize = 16;

/// The first items of a list, as many as a limit allows, and whether there are more.
/// A limit of zero is none.
pub open spec fn limited<T>(s: Seq<T>, limit: nat) -> (Seq<T>, bool) {
    if limit > 0 && s.len() > limit {
        (s.take(limit as int), true)
    } else {
        (s, false)
    }
}

/// The condition by which contents are searched.
pub open spec fn content_filter(pattern: Seq<char>) -> Seq<char> {
    "regexp_like(content, '"@ + sql_escaped(pattern) + "')"@
}

/// Texts in quotes.
pub open spec fn quoted(texts: Seq<Seq<char>>) -> Seq<Seq<char>> {
    texts.map_values(|t: Seq<char>| "'"@ + t + "'"@)
}

/// The condition by which functions with one of some bodies are found.
pub open spec fn body_filter(hashes: Seq<Seq<char>>) -> Seq<char> {
    "body_hash IN ("@ + joined(quoted(hashes), ", "@) + ")"@
}

/// How functions are looked up by the hashes of their bodies.
pub enum HashLookup {
    /// Not at all: there are no hashes, so nothing is found, whatever the paths.
    Nothing,
    /// With one query.
    Single,
    /// With a query for each chunk of hashes, some at a time.
    Chunked { chunk_size: usize, concurrent: usize },
}

/// How many hashes one query may hold.
pub open spec fn single_query_limit(cores: nat) -> nat {
    if cores >= 8 {
        1000
    } else {
        2000
    }
}

/// How many chunks of `HASH_CHUNK_SIZE` some hashes fill.
pub open spec fn chunk_count(hashes: nat) -> int {
    (hashes + HASH_CHUNK_SIZE - 1) / (HASH_CHUNK_SIZE as int)
}

fn least(a: usize, b: usize) -> (r: usize)
    ensures
        r == (if a <= b {
            a
        } else {
            b
        }),
{
    if a <= b {
        a
    } else {
        b
    }
}

/// Gathers functions up to a limit. With a limit of zero, or where paths are still to
/// be filtered, it takes all.
pub struct GrepCollector {
    pub limit: usize,
    pub filters_paths: bool,
    pub functions: Vec<FunctionInfo>,
    pub limit_hit: bool,
}

impl GrepCollector {
    /// Whether no further function is taken.
    pub open spec fn full(self) -> bool {
        !self.filters_paths && self.limit > 0 && self.functions@.len() >= self.limit
    }

    /// A gatherer without functions.
    pub fn new(limit: usize, filters_paths: bool) -> (r: GrepCollector)
        ensures
            r.limit == limit,
            r.filters_paths == filters_paths,
            r.functions@.len() == 0,
            !r.limit_hit,
    {
        GrepCollector { limit, filters_paths, functions: Vec::new(), limit_hit: false }
    }

    /// Whether another function can be taken. Where it cannot, the limit is noted as hit.
    pub fn admits(&mut self) -> (r: bool)
        ensures
            r == !old(self).full(),
            final(self).limit_hit == (old(self).limit_hit || old(self).full()),
            final(self).limit == old(self).limit,
            final(self).filters_paths == old(self).filters_paths,
            final(self).functions@ == old(self).functions@,
    {
        if !self.filters_paths && self.limit > 0 && self.functions.len() >= self.limit {
            self.limit_hit = true;
            return false;
        }
        true
    }

    /// Takes a function.
    pub fn push(&mut self, f: FunctionInfo)
        ensures
            final(self).functions@ == old(self).functions@.push(f),
            final(self).limit_hit == old(self).limit_hit,
            final(self).limit == old(self).limit,
            final(self).filters_paths == old(self).filters_paths,
    {
        self.functions.push(f);
    }

    /// The functions gathered, without those whose path does not match, up to the limit,
    /// and whether there were more.
    pub fn finish(self, path_pattern: Option<&str>) -> (r: Result<
        (Vec<FunctionInfo>, bool),
        PatternError,
    >)
        ensures
            match (r, path_pattern) {
                (Ok((functions, more)), None) => functions@ == self.functions@ && more
                    == self.limit_hit,
                (Ok((functions, more)), Some(p)) => compiles(p@) && (functions@, more) == limited(
                    self.functions@.filter(|f: FunctionInfo| pattern_matches(p@, f.file_path@)),
                    self.limit as nat,
                ),
                (Err(e), Some(p)) => !compiles(p@) && is_fault(e, p@),
                (Err(_), None) => false,
            },
    {
        match path_pattern {
            None => Ok((self.functions, self.limit_hit)),
            Some(p) => {
                let re = match compile(p) {
                    Ok(re) => re,
                    Err(e) => return Err(e),
                };
                let limit = self.limit;
                let ghost all = self.functions@;
                let ghost keep = |f: FunctionInfo| pattern_matches(p@, f.file_path@);
                let mut kept: Vec<FunctionInfo> = Vec::new();
                let mut more: bool = false;
                let ghost mut i: int = 0;
                proof {
                    reveal(Seq::filter);
                    assert(all.take(0).filter(keep) =~= Seq::empty());
                }
                for f in it: self.functions.into_iter()
                    invariant
                        it.seq() == all,
                        i == it.index(),
                        keep == (|f: FunctionInfo| pattern_matches(p@, f.file_path@)),
                        compiles(p@),
                        crate::patterns::pattern_texts(p@) == Some(
                            crate::patterns::texts_matched(re),
                        ),
                        (kept@, more) == limited(all.take(i).filter(keep), limit as nat),
                {
                    proof {
                        reveal(Seq::filter);
                        assert(all.take(i + 1).drop_last() =~= all.take(i));
                        assert(all.take(i + 1).last() == f);
                    }
                    let ghost before = all.take(i).filter(keep);
                    let ghost now = all.take(i + 1).filter(keep);
                    if matches_text(&re, f.file_path.as_str()) {
                        assert(now == before.push(f));
                        if limit > 0 && kept.len() >= limit {
                            proof {
                                assert(now.take(limit as int) =~= kept@);
                            }
                            more = true;
                        } else {
                            kept.push(f);
                        }
                    }
                    proof {
                        i = i + 1;
                    }
                }
                proof {
                    assert(all.take(i) =~= all);
                }
                Ok((kept, more))
            },
        }
    }
}

/// What a search of bodies returns, of the functions with a body that matched.
pub open spec fn grep_result(
    found: Seq<FunctionInfo>,
    path_pattern: Option<Seq<char>>,
    limit: nat,
) -> (Seq<FunctionInfo>, bool) {
    match path_pattern {
        Some(p) => limited(
            found.filter(|f: FunctionInfo| pattern_matches(p, f.file_path@)),
            limit,
        ),
        None => limited(found, limit),
    }
}

impl DatabaseManager {
    /// The condition by which contents are searched.
    pub fn grep_content_filter(&self, pattern: &str) -> (r: String)
        ensures
            r@ == content_filter(pattern@),
    {
        let mut out: String = "regexp_like(content, '".to_owned();
        out.append(escape_sql(pattern).as_str());
        out.append("')");
        out
    }

    /// The condition by which functions with one of some bodies are found.
    pub fn grep_body_filter(&self, hashes: &Vec<String>) -> (r: String)
        ensures
            r@ == body_filter(strs(hashes@)),
    {
        let mut parts: Vec<String> = Vec::new();
        let ghost all = quoted(strs(hashes@));
        let mut i: usize = 0;
        while i < hashes.len()
            invariant
                i <= hashes@.len(),
                all == quoted(strs(hashes@)),
                strs(parts@) == all.take(i as int),
            decreases hashes@.len() - i,
        {
            let mut part: String = "'".to_owned();
            part.append(hashes[i].as_str());
            part.append("'");
            proof {
                assert(all[i as int] == part@);
                assert(all.take(i + 1) =~= all.take(i as int).push(part@));
            }
            parts.push(part);
            i += 1;
        }
        proof {
            assert(all.take(i as int) =~= all);
        }
        let mut out: String = "body_hash IN (".to_owned();
        out.append(join(&parts, ", ").as_str());
        out.append(")");
        out
    }

    /// How functions are looked up by the hashes of their bodies: not at all without a
    /// hash, with one query, or, where there are many, with one for each chunk.
    pub fn grep_lookup(&self, hash_count: usize, cores: usize) -> (r: HashLookup)
        ensures
            hash_count == 0 <==> r is Nothing,
            0 < hash_count <= single_query_limit(cores as nat) <==> r is Single,
            r matches HashLookup::Chunked { chunk_size, concurrent } ==> {
                &&& chunk_size == HASH_CHUNK_SIZE
                &&& concurrent <= MAX_CONCURRENT_QUERIES
                &&& concurrent <= cores
                &&& concurrent <= chunk_count(hash_count as nat)
                &&& concurrent == MAX_CONCURRENT_QUERIES || concurrent == cores || concurrent
                    == chunk_count(hash_count as nat)
            },
            r matches HashLookup::Chunked { chunk_size, concurrent } ==> chunk_size == 500 && concurrent
                <= 16 && (concurrent < 16 ==> concurrent == cores || 500 * concurrent >= hash_count),
    {
        let threshold: usize = if cores >= 8 {
            1000
        } else {
            2000
        };
        if hash_count == 0 {
            HashLookup::Nothing
        } else if hash_count <= threshold {
            HashLookup::Single
        } else {
            let chunks: usize = (hash_count - 1) / HASH_CHUNK_SIZE + 1;
            let concurrent = least(least(MAX_CONCURRENT_QUERIES, cores), chunks);
            HashLookup::Chunked { chunk_size: HASH_CHUNK_SIZE, concurrent }
        }
    }

    /// Whether a search needs more functions than those found. Without a path to filter by,
    /// one more than the limit settles what it returns.
    pub fn grep_needs_more(&self, found: &Vec<FunctionInfo>, filters_paths: bool, limit: usize) -> (r:
        bool)
        ensures
            r == (filters_paths || limit == 0 || found@.len() <= limit),
            !r ==> forall|rest: Seq<FunctionInfo>| #[trigger]
                grep_result(found@ + rest, None, limit as nat) == grep_result(
                    found@,
                    None,
                    limit as nat,
                ),
    {
        let r = filters_paths || limit == 0 || found.len() <= limit;
        proof {
            if !r {
                assert forall|rest: Seq<FunctionInfo>| #[trigger]
                    grep_result(found@ + rest, None, limit as nat) == grep_result(
                        found@,
                        None,
                        limit as nat,
                    ) by {
                    assert((found@ + rest).take(limit as int) =~= found@.take(limit as int));
                }
            }
        }
        r
    }

    /// What a search of bodies returns, of the functions with a body that matched:
    /// those whose path matches as well, up to the limit, and whether there were more.
    pub fn grep_function_bodies(
        &self,
        found: Vec<FunctionInfo>,
        path_pattern: Option<&str>,
        limit: usize,
    ) -> (r: Result<(Vec<FunctionInfo>, bool), PatternError>)
        ensures
            match r {
                Ok((functions, more)) => {
                    &&& path_pattern is Some ==> compiles(path_pattern->0@)
                    &&& (functions@, more) == grep_result(
                        found@,
                        opt_text(path_pattern),
                        limit as nat,
                    )
                },
                Err(e) => path_pattern is Some && !compiles(path_pattern->0@) && is_fault(
                    e,
                    path_pattern->0@,
                ),
            },
    {
        let mut collector = GrepCollector::new(limit, path_pattern.is_some());
        let ghost all = found@;
        let ghost mut i: int = 0;
        for f in it: found.into_iter()
            invariant
                it.seq() == all,
                i == it.index(),
                collector.limit == limit,
                collector.filters_paths == path_pattern is Some,
                path_pattern is Some ==> collector.functions@ == all.take(i),
                path_pattern is None ==> (collector.functions@, collector.limit_hit) == limited(
                    all.take(i),
                    limit as nat,
                ),
        {
            proof {
                assert(all.take(i + 1) =~= all.take(i).push(f));
                if limit > 0 && i >= limit {
                    assert(all.take(i + 1).take(limit as int) =~= all.take(i).take(limit as int));
                    assert(all.take(i).take(limit as int) =~= all.take(limit as int));
                    assert(i == limit ==> all.take(i) =~= all.take(limit as int));
                }
                i = i + 1;
            }
            if collector.admits() {
                collector.push(f);
            }
        }
        proof {
            assert(all.take(i) =~= all);
        }
        collector.finish(path_pattern)
    }

    /// The files of some functions, each once.
    pub fn unique_file_paths(&self, functions: &Vec<FunctionInfo>) -> (r: Vec<String>)
        ensures
            strs(r@) == firsts(functions@.map_values(|f: FunctionInfo| f.file_path@)),
    {
        let ghost all = functions@.map_values(|f: FunctionInfo| f.file_path@);
        let mut out: Vec<String> = Vec::new();
        let mut i: usize = 0;
        while i < functions.len()
            invariant
                i <= functions@.len(),
                all == functions@.map_values(|f: FunctionInfo| f.file_path@),
                strs(out@) == all.take(i as int),
            decreases functions@.len() - i,
        {
            out.push(functions[i].file_path.clone());
            proof {
                assert(all.take(i + 1) =~= all.take(i as int).push(all[i as int]));
            }
            i += 1;
        }
        proof {
            assert(all.take(i as int) =~= all);
        }
        distinct(out)
    }

    /// What a search of bodies at a commit returns, of all that a search without a
    /// commit found and of the files that the commit holds: the versions of that
    /// commit, up to the limit, and whether there were more.
    pub fn grep_function_bodies_git_aware(
        &self,
        all_matching: Vec<FunctionInfo>,
        resolved: &Manifest,
        limit: usize,
    ) -> (r: (Vec<FunctionInfo>, bool))
        ensures
            (r.0@, r.1) == limited(
                all_matching@.filter(|f: FunctionInfo| at_commit(resolved@, f)),
                limit as nat,
            ),
    {
        let ghost all = all_matching@;
        let ghost keep = |f: FunctionInfo| at_commit(resolved@, f);
        let mut kept: Vec<FunctionInfo> = Vec::new();
        let mut more: bool = false;
        let ghost mut i: int = 0;
        proof {
            reveal(Seq::filter);
            assert(all.take(0).filter(keep) =~= Seq::empty());
        }
        for f in it: all_matching.into_iter()
            invariant
                it.seq() == all,
                i == it.index(),
                keep == (|f: FunctionInfo| at_commit(resolved@, f)),
                (kept@, more) == limited(all.take(i).filter(keep), limit as nat),
        {
            proof {
                reveal(Seq::filter);
                assert(all.take(i + 1).drop_last() =~= all.take(i));
                assert(all.take(i + 1).last() == f);
            }
            let ghost before = all.take(i).filter(keep);
            let ghost now = all.take(i + 1).filter(keep);
            if resolved.holds(f.file_path.as_str(), f.git_file_hash.as_str()) {
                assert(now == before.push(f));
                if limit > 0 && kept.len() >= limit {
                    proof {
                        assert(now.take(limit as int) =~= kept@);
                    }
                    more = true;
                } else {
                    kept.push(f);
                }
            }
            proof {
                i = i + 1;
            }
        }
        proof {
            assert(all.take(i) =~= all);
        }
        (kept, more)
    }
}

/// A search never returns more than its limit, and says that there were more exactly
/// where something was left out.
pub proof fn law_grep_limit(
    found: Seq<FunctionInfo>,
    path_pattern: Option<Seq<char>>,
    limit: nat,
)
    ensures
        limit > 0 ==> grep_result(found, path_pattern, limit).0.len() <= limit,
        grep_result(found, path_pattern, 0).1 == false,
        grep_result(found, path_pattern, limit).1 <==> grep_result(found, path_pattern, limit).0.len()
            < grep_result(found, path_pattern, 0).0.len(),
        grep_result(found, path_pattern, limit).0 == grep_result(found, path_pattern, 0).0.take(
            grep_result(found, path_pattern, limit).0.len() as int,
        ),
{
    let all = grep_result(found, path_pattern, 0).0;
    assert(all.take(all.len() as int) =~= all);
}

/// What a limit leaves of a list is its start: as many items as the limit, or all where
/// there are no more or where the limit is zero. It says whether something was left out.
pub proof fn law_limited<T>(s: Seq<T>, limit: nat)
    ensures
        limit == 0 || s.len() <= limit ==> limited(s, limit) == (s, false),
        limit > 0 && s.len() > limit ==> limited(s, limit).0.len() == limit && limited(s, limit).1,
        forall|i: int|
            0 <= i < limited(s, limit).0.len() ==> #[trigger] limited(s, limit).0[i] == s[i],
{
}

/// A search returns functions that were found, whose path matches where a pattern for it is
/// given. Where it does not say that there were more, it returns all of these; where it does,
/// it returns as many as the limit.
pub proof fn law_grep_result(
    found: Seq<FunctionInfo>,
    path_pattern: Option<Seq<char>>,
    limit: nat,
)
    ensures
        ({
            let (functions, more) = grep_result(found, path_pattern, limit);
            &&& forall|i: int|
                0 <= i < functions.len() ==> found.contains(#[trigger] functions[i]) && (
                path_pattern matches Some(p) ==> pattern_outcome(p) matches Ok(texts)
                    && texts.contains(functions[i].file_path@))
            &&& !more ==> forall|j: int|
                0 <= j < found.len() && (path_pattern matches Some(p) ==> pattern_outcome(
                    p,
                ) matches Ok(texts) && texts.contains(found[j].file_path@)) ==> functions.contains(
                    #[trigger] found[j],
                )
            &&& more ==> limit > 0 && functions.len() == limit
            &&& path_pattern is None ==> forall|i: int|
                0 <= i < functions.len() ==> #[trigger] functions[i] == found[i]
        }),
{
    let (functions, more) = grep_result(found, path_pattern, limit);
    match path_pattern {
        Some(p) => {
            let keep = |f: FunctionInfo| pattern_matches(p, f.file_path@);
            let kept = found.filter(keep);
            assert forall|i: int| 0 <= i < functions.len() implies found.contains(
                #[trigger] functions[i],
            ) && keep(functions[i]) by {
                assert(functions[i] == kept[i]);
                assert(kept.contains(kept[i]));
                found.lemma_filter_contains_rev(keep, kept[i]);
                found.lemma_filter_pred(keep, i);
            }
            if !more {
                assert forall|j: int| 0 <= j < found.len() && keep(found[j]) implies functions.contains(
                    #[trigger] found[j],
                ) by {
                    found.lemma_filter_contains(keep, j);
                }
            }
        },
        None => {
            assert forall|i: int| 0 <= i < functions.len() implies found.contains(
                #[trigger] functions[i],
            ) by {
                assert(functions[i] == found[i]);
            }
        },
    }
}

/// How many hashes one query holds, by the number of cores, and how many chunks of 500 hashes
/// there are: just so many that they hold all.
pub proof fn law_hash_queries(cores: nat, hashes: nat)
    ensures
        cores >= 8 ==> single_query_limit(cores) == 1000,
        cores < 8 ==> single_query_limit(cores) == 2000,
        500 * chunk_count(hashes) >= hashes,
        500 * (chunk_count(hashes) - 1) < hashes,
{
}

/// The conditions by which bodies are searched: the pattern, escaped, in the contents; and one
/// of some hashes, each in quotes, with commas between them.
pub proof fn law_grep_filters(pattern: Seq<char>, hashes: Seq<Seq<char>>, hash: Seq<char>)
    ensures
        content_filter(pattern) == "regexp_like(content, '"@ + sql_escaped(pattern) + "')"@,
        body_filter(seq![hash]) == "body_hash IN ("@ + ("'"@ + hash + "'"@) + ")"@,
        hashes.len() > 0 ==> body_filter(hashes.push(hash)) == "body_hash IN ("@ + (joined(
            quoted(hashes),
            ", "@,
        ) + ", "@ + ("'"@ + hash + "'"@)) + ")"@,
        quoted(hashes.push(hash)) == quoted(hashes).push("'"@ + hash + "'"@),
{
    let one = "'"@ + hash + "'"@;
    assert(quoted(seq![hash]) =~= seq![one]);
    assert(quoted(hashes.push(hash)) =~= quoted(hashes).push(one));
    assert(quoted(hashes).push(one).drop_last() =~= quoted(hashes));
}

/// A gatherer takes every function while paths are still to be filtered and without a limit;
/// else it takes as many as the limit.
pub proof fn law_collector_full(c: GrepCollector)
    ensures
        c.filters_paths || c.limit == 0 ==> !c.full(),
        !c.filters_paths && c.limit > 0 ==> (c.full() <==> c.functions@.len() >= c.limit),
{
}

/// A search keeps the order of what was found: one more function comes behind the others,
/// where its path matches or none is asked for. With a limit it returns the first of what it
/// returns without.
pub proof fn law_grep_order(
    found: Seq<FunctionInfo>,
    f: FunctionInfo,
    path_pattern: Option<Seq<char>>,
    limit: nat,
)
    ensures
        grep_result(Seq::<FunctionInfo>::empty(), path_pattern, 0).0.len() == 0,
        (path_pattern matches Some(p) ==> pattern_outcome(p) matches Ok(texts) && texts.contains(
            f.file_path@,
        )) ==> grep_result(found.push(f), path_pattern, 0).0 == grep_result(found, path_pattern, 0).0.push(
            f,
        ),
        !(path_pattern matches Some(p) ==> pattern_outcome(p) matches Ok(texts) && texts.contains(
            f.file_path@,
        )) ==> grep_result(found.push(f), path_pattern, 0).0 == grep_result(found, path_pattern, 0).0,
        grep_result(found, path_pattern, limit) == limited(grep_result(found, path_pattern, 0).0, limit),
{
    match path_pattern {
        Some(p) => {
            lemma_filter_step(found, f, |f: FunctionInfo| pattern_matches(p, f.file_path@));
        },
        None => {},
    }
}

} // verus!
