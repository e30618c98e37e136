//! The indexing pipeline: what is indexed, in which batches, and when the database
//! is looked after in between.
use crate::commits::GitCommitInfo;
use crate::lists::{lemma_filter_step, NameSet};
use crate::text::strs;
use vstd::prelude::*;

verus! {

/// Batches between two looks at the database's health.
pub const CHECK_EVERY: usize = 300;

/// Seconds between two looks at the database's health.
pub const CHECK_AFTER_SECS: u64 = 900;

/// How many commits one worker hands on at a time.
pub const COMMIT_BATCH_SIZE: usize = 100;

/// Where a periodic check of the database stands.
#[derive(Clone, Copy)]
pub enum OptimizationCheck {
    /// It is not due.
    NotDue,
    /// The health of the database is to be checked.
    AskHealth,
    /// The database is to be optimized.
    Optimize,
    /// It is over, and its time is to be noted; `performed` tells whether the
    /// database was optimized.
    Checked { performed: bool },
}

/// Whether the number of batches calls for a check: for the first inserter, at every
/// multiple of `CHECK_EVERY` batches but the first.
pub open spec fn batches_call(inserter_id: usize, total_batches: usize) -> bool {
    &&& inserter_id == 0
    &&& total_batches > CHECK_EVERY
    &&& total_batches % CHECK_EVERY == 0
}

/// Whether the number of batches calls for a check. Only then is the time of the last one
/// to be looked at.
pub fn batches_call_for_check(inserter_id: usize, total_batches: usize) -> (r: bool)
    ensures
        r == batches_call(inserter_id, total_batches),
{
    inserter_id == 0 && total_batches > CHECK_EVERY && total_batches % CHECK_EVERY == 0
}

/// Whether a check is due: when the number of batches calls for one, and the last check is
/// long past. No time is known where another thread holds the timer.
pub open spec fn check_due(
    inserter_id: usize,
    total_batches: usize,
    elapsed_secs: Option<u64>,
) -> bool {
    &&& batches_call(inserter_id, total_batches)
    &&& elapsed_secs is Some
    &&& elapsed_secs->0 >= CHECK_AFTER_SECS
}

/// How a check starts.
pub open spec fn first_step(
    inserter_id: usize,
    total_batches: usize,
    elapsed_secs: Option<u64>,
) -> OptimizationCheck {
    if check_due(inserter_id, total_batches, elapsed_secs) {
        OptimizationCheck::AskHealth
    } else {
        OptimizationCheck::NotDue
    }
}

/// Starts a periodic check where one is due.
pub fn check_and_optimize_if_needed(
    inserter_id: usize,
    total_batches: usize,
    elapsed_secs: Option<u64>,
) -> (r: OptimizationCheck)
    ensures
        r == first_step(inserter_id, total_batches, elapsed_secs),
{
    if !batches_call_for_check(inserter_id, total_batches) {
        return OptimizationCheck::NotDue;
    }
    match elapsed_secs {
        Some(secs) if secs >= CHECK_AFTER_SECS => OptimizationCheck::AskHealth,
        _ => OptimizationCheck::NotDue,
    }
}

/// What follows a health check.
pub open spec fn after_health(c: OptimizationCheck, answer: Option<bool>) -> OptimizationCheck {
    if c is AskHealth {
        if answer == Some(true) {
            OptimizationCheck::Optimize
        } else {
            OptimizationCheck::Checked { performed: false }
        }
    } else {
        c
    }
}

/// What follows an attempt to optimize.
pub open spec fn after_optimized(c: OptimizationCheck, worked: bool) -> OptimizationCheck {
    if c is Optimize {
        OptimizationCheck::Checked { performed: worked }
    } else {
        c
    }
}

impl OptimizationCheck {
    /// Goes on with what the health check found: whether the database needs
    /// optimizing, or `None` where the check failed.
    pub fn on_health(self, needs_optimization: Option<bool>) -> (r: OptimizationCheck)
        ensures
            r == after_health(self, needs_optimization),
    {
        match self {
            OptimizationCheck::AskHealth => match needs_optimization {
                Some(true) => OptimizationCheck::Optimize,
                _ => OptimizationCheck::Checked { performed: false },
            },
            other => other,
        }
    }

    /// Goes on with whether optimizing worked.
    pub fn on_optimized(self, worked: bool) -> (r: OptimizationCheck)
        ensures
            r == after_optimized(self, worked),
    {
        match self {
            OptimizationCheck::Optimize => OptimizationCheck::Checked { performed: worked },
            other => other,
        }
    }

    /// Whether the time of the last check is to be set to now.
    pub fn restarts_timer(&self) -> (r: bool)
        ensures
            r == (*self is Checked),
    {
        match self {
            OptimizationCheck::Checked { .. } => true,
            _ => false,
        }
    }

    /// Whether the database was optimized.
    pub fn optimized(&self) -> (r: bool)
        ensures
            r == (*self == OptimizationCheck::Checked { performed: true }),
    {
        match self {
            OptimizationCheck::Checked { performed } => *performed,
            _ => false,
        }
    }
}

/// A check ends with the database optimized exactly where it was due, the database
/// needed it and optimizing worked; its time is noted exactly where it was due.
pub proof fn law_check_outcome(
    inserter_id: usize,
    total_batches: usize,
    elapsed_secs: Option<u64>,
    needs: Option<bool>,
    worked: bool,
)
    ensures
        ({
            let due = check_due(inserter_id, total_batches, elapsed_secs);
            let start = first_step(inserter_id, total_batches, elapsed_secs);
            let end = after_optimized(after_health(start, needs), worked);
            &&& end is Checked <==> due
            &&& end == (OptimizationCheck::Checked { performed: true }) <==> due && needs == Some(
                true,
            ) && worked
        }),
{
}

/// Gathers items into batches.
pub struct Batcher<T> {
    pub batch_size: usize,
    pub batch: Vec<T>,
}

/// The batches that a list of items fills, and the items left over.
pub open spec fn batched<T>(items: Seq<T>, size: nat) -> (Seq<Seq<T>>, Seq<T>)
    decreases items.len(),
{
    if items.len() == 0 {
        (Seq::empty(), Seq::empty())
    } else {
        let (done, open) = batched(items.drop_last(), size);
        let more = open.push(items.last());
        if more.len() >= size {
            (done.push(more), Seq::empty())
        } else {
            (done, more)
        }
    }
}

impl<T> Batcher<T> {
    /// A gatherer that hands a batch on when it holds `batch_size` items.
    pub fn new(batch_size: usize) -> (r: Batcher<T>)
        ensures
            r.batch_size == batch_size,
            r.batch@ == batched(Seq::<T>::empty(), batch_size as nat).1,
    {
        Batcher { batch_size, batch: Vec::new() }
    }

    /// Takes an item in. The batch comes out when it is full.
    pub fn push(&mut self, item: T) -> (r: Option<Vec<T>>)
        ensures
            final(self).batch_size == old(self).batch_size,
            match r {
                Some(full) => {
                    &&& full@ == old(self).batch@.push(item)
                    &&& full@.len() >= old(self).batch_size
                    &&& final(self).batch@.len() == 0
                },
                None => {
                    &&& final(self).batch@ == old(self).batch@.push(item)
                    &&& final(self).batch@.len() < old(self).batch_size
                },
            },
            forall|items: Seq<T>| #![trigger batched(items, old(self).batch_size as nat)]
                old(self).batch@ == batched(items, old(self).batch_size as nat).1 ==> {
                    let now = batched(items.push(item), old(self).batch_size as nat);
                    &&& final(self).batch@ == now.1
                    &&& now.0 == match r {
                        Some(full) => batched(items, old(self).batch_size as nat).0.push(full@),
                        None => batched(items, old(self).batch_size as nat).0,
                    }
                },
    {
        proof {
            assert forall|items: Seq<T>| #[trigger] items.push(item).drop_last() == items by {
                assert(items.push(item).drop_last() =~= items);
            }
        }
        self.batch.push(item);
        if self.batch.len() >= self.batch_size {
            let mut full: Vec<T> = Vec::new();
            std::mem::swap(&mut full, &mut self.batch);
            Some(full)
        } else {
            None
        }
    }

    /// What is left over, if anything is.
    pub fn finish(self) -> (r: Option<Vec<T>>)
        ensures
            match r {
                Some(rest) => rest@ == self.batch@ && rest@.len() > 0,
                None => self.batch@.len() == 0,
            },
    {
        if self.batch.len() > 0 {
            Some(self.batch)
        } else {
            None
        }
    }
}

/// Everything in a list of batches, in order.
pub open spec fn flat<T>(batches: Seq<Seq<T>>) -> Seq<T>
    decreases batches.len(),
{
    if batches.len() == 0 {
        Seq::empty()
    } else {
        flat(batches.drop_last()) + batches.last()
    }
}

/// Batches lose no item, repeat none and keep their order; each is as large as was
/// asked for, and at least of one item; what is left over is smaller.
pub proof fn law_batches<T>(items: Seq<T>, size: nat)
    ensures
        flat(batched(items, size).0) + batched(items, size).1 == items,
        forall|i: int|
            0 <= i < batched(items, size).0.len() ==> (#[trigger] batched(items, size).0[i]).len()
                == if size == 0 {
                1
            } else {
                size
            },
        batched(items, size).1.len() < size || batched(items, size).1.len() == 0,
    decreases items.len(),
{
    if items.len() > 0 {
        let before = items.drop_last();
        law_batches(before, size);
        let (done, open) = batched(before, size);
        let more = open.push(items.last());
        assert(items =~= before.push(items.last()));
        if more.len() >= size {
            assert(done.push(more).drop_last() =~= done);
            assert(flat(done.push(more)) + Seq::<T>::empty() =~= items);
        } else {
            assert(flat(done) + more =~= items);
        }
    }
}

/// The identifiers of commits.
pub open spec fn shas(commits: Seq<GitCommitInfo>) -> Seq<Seq<char>> {
    commits.map_values(|c: GitCommitInfo| c.git_sha@)
}

/// The commits of a batch that were not seen before, each once.
pub open spec fn unseen(batch: Seq<GitCommitInfo>, seen: Set<Seq<char>>) -> Seq<GitCommitInfo>
    decreases batch.len(),
{
    if batch.len() == 0 {
        Seq::empty()
    } else {
        let rest = unseen(batch.drop_last(), seen);
        let sha = batch.last().git_sha@;
        if seen.contains(sha) || shas(batch.drop_last()).contains(sha) {
            rest
        } else {
            rest.push(batch.last())
        }
    }
}

/// Leaves out of a batch the commits that were seen before, and notes the others as
/// seen.
pub fn filter_unseen(batch: Vec<GitCommitInfo>, seen: &mut NameSet) -> (r: Vec<GitCommitInfo>)
    ensures
        r@ == unseen(batch@, old(seen)@),
        final(seen)@ == old(seen)@.union(shas(batch@).to_set()),
{
    let ghost all = batch@;
    let mut kept: Vec<GitCommitInfo> = Vec::new();
    let ghost mut i: int = 0;
    proof {
        assert(shas(all.take(0)).to_set() =~= Set::empty());
        assert(seen@.union(Set::empty()) =~= seen@);
        assert(all.take(0) =~= Seq::empty());
    }
    for commit in it: batch.into_iter()
        invariant
            it.seq() == all,
            i == it.index(),
            kept@ == unseen(all.take(i), old(seen)@),
            seen@ == old(seen)@.union(shas(all.take(i)).to_set()),
    {
        let ghost before = all.take(i);
        let ghost now = all.take(i + 1);
        let ghost had = seen@;
        proof {
            assert(now.drop_last() =~= before);
            assert(now.last() == commit);
            assert(shas(now) =~= shas(before).push(commit.git_sha@));
            assert(shas(now).to_set() =~= shas(before).to_set().insert(commit.git_sha@)) by {
                assert forall|x: Seq<char>| #[trigger]
                    shas(now).contains(x) <==> shas(before).contains(x) || x == commit.git_sha@ by {
                    if shas(before).contains(x) {
                        let k = choose|k: int| 0 <= k < shas(before).len() && shas(before)[k] == x;
                        assert(shas(now)[k] == x);
                    }
                    if x == commit.git_sha@ {
                        assert(shas(now)[i] == x);
                    }
                }
            }
            assert(had.contains(commit.git_sha@) == (old(seen)@.contains(commit.git_sha@) || shas(
                before,
            ).contains(commit.git_sha@)));
        }
        let fresh = seen.insert(commit.git_sha.clone());
        proof {
            assert(seen@ =~= old(seen)@.union(shas(now).to_set()));
        }
        if fresh {
            kept.push(commit);
        }
        proof {
            i = i + 1;
        }
    }
    proof {
        assert(all.take(i) =~= all);
    }
    kept
}

/// No commit that passes was seen before, no two that pass have one identifier, and
/// every identifier of the batch was seen or passes.
pub proof fn law_unseen_once(batch: Seq<GitCommitInfo>, seen: Set<Seq<char>>)
    ensures
        forall|i: int|
            0 <= i < unseen(batch, seen).len() ==> !seen.contains(
                (#[trigger] unseen(batch, seen)[i]).git_sha@,
            ),
        shas(unseen(batch, seen)).no_duplicates(),
        forall|x: Seq<char>|
            #![trigger shas(batch).contains(x)]
            shas(unseen(batch, seen)).contains(x) <==> shas(batch).contains(x) && !seen.contains(x),
    decreases batch.len(),
{
    if batch.len() > 0 {
        let before = batch.drop_last();
        let last = batch.last();
        let sha = last.git_sha@;
        law_unseen_once(before, seen);
        let rest = unseen(before, seen);
        assert(batch =~= before.push(last));
        assert(shas(batch) =~= shas(before).push(sha));
        let fresh = !(seen.contains(sha) || shas(before).contains(sha));
        if fresh {
            assert(shas(rest.push(last)) =~= shas(rest).push(sha));
            assert(!shas(rest).contains(sha));
        }
        let now = unseen(batch, seen);
        assert forall|x: Seq<char>| #[trigger] shas(batch).contains(x) implies (
            shas(before).contains(x) || x == sha) by {
            let k = choose|k: int| 0 <= k < shas(batch).len() && shas(batch)[k] == x;
            if k < before.len() {
                assert(shas(before)[k] == x);
            }
        }
        assert forall|x: Seq<char>|
            #![trigger shas(batch).contains(x)]
            shas(now).contains(x) <==> shas(batch).contains(x) && !seen.contains(x) by {
            if shas(now).contains(x) {
                let k = choose|k: int| 0 <= k < shas(now).len() && shas(now)[k] == x;
                if k < rest.len() {
                    assert(shas(rest)[k] == x);
                    assert(shas(before).contains(x));
                    let m = choose|m: int| 0 <= m < shas(before).len() && shas(before)[m] == x;
                    assert(shas(batch)[m] == x);
                } else {
                    assert(x == sha);
                    assert(shas(batch)[batch.len() - 1] == x);
                }
            }
            if shas(batch).contains(x) && !seen.contains(x) {
                if shas(before).contains(x) {
                    let m = choose|m: int| 0 <= m < shas(rest).len() && shas(rest)[m] == x;
                    assert(shas(now)[m] == x);
                } else {
                    assert(fresh && x == sha);
                    assert(shas(now)[rest.len() as int] == x);
                }
            }
        }
    }
}

/// Two batches one after the other pass what they would pass as one: a commit is
/// handed on at most once in a run.
pub proof fn law_unseen_across_batches(
    first: Seq<GitCommitInfo>,
    second: Seq<GitCommitInfo>,
    seen: Set<Seq<char>>,
)
    ensures
        unseen(first + second, seen) == unseen(first, seen) + unseen(
            second,
            seen.union(shas(first).to_set()),
        ),
    decreases second.len(),
{
    let then = seen.union(shas(first).to_set());
    if second.len() == 0 {
        assert(first + second =~= first);
        assert(unseen(first, seen) + Seq::<GitCommitInfo>::empty() =~= unseen(first, seen));
    } else {
        let before = second.drop_last();
        let sha = second.last().git_sha@;
        law_unseen_across_batches(first, before, seen);
        assert((first + second).drop_last() =~= first + before);
        assert((first + second).last() == second.last());
        assert(shas(first + before) =~= shas(first) + shas(before));
        assert(shas(first + before).contains(sha) <==> shas(first).contains(sha) || shas(
            before,
        ).contains(sha)) by {
            let both = shas(first + before);
            if both.contains(sha) {
                let k = choose|k: int| 0 <= k < both.len() && both[k] == sha;
                if k < first.len() {
                    assert(shas(first)[k] == sha);
                } else {
                    assert(shas(before)[k - first.len()] == sha);
                }
            }
            if shas(first).contains(sha) {
                let k = choose|k: int| 0 <= k < shas(first).len() && shas(first)[k] == sha;
                assert(both[k] == sha);
            }
            if shas(before).contains(sha) {
                let k = choose|k: int| 0 <= k < shas(before).len() && shas(before)[k] == sha;
                assert(both[first.len() + k] == sha);
            }
        }
        assert(unseen(first + second, seen) =~= unseen(first, seen) + unseen(second, then));
    }
}

/// The batches that inserters write, one for each batch that reaches them.
pub open spec fn written(batches: Seq<Seq<GitCommitInfo>>, seen: Set<Seq<char>>) -> Seq<
    Seq<GitCommitInfo>,
>
    decreases batches.len(),
{
    if batches.len() == 0 {
        Seq::empty()
    } else {
        let before = batches.drop_last();
        written(before, seen).push(
            unseen(batches.last(), seen.union(shas(flat(before)).to_set())),
        )
    }
}

/// In whatever batches and in whatever order commits reach the inserters, what they write
/// is what is new among them: each commit that the database lacked, once.
pub proof fn law_pipeline_writes_new_commits_once(
    batches: Seq<Seq<GitCommitInfo>>,
    seen: Set<Seq<char>>,
)
    ensures
        flat(written(batches, seen)) == unseen(flat(batches), seen),
        shas(flat(written(batches, seen))).no_duplicates(),
        forall|x: Seq<char>|
            #![trigger shas(flat(batches)).contains(x)]
            shas(flat(written(batches, seen))).contains(x) <==> shas(flat(batches)).contains(x)
                && !seen.contains(x),
    decreases batches.len(),
{
    if batches.len() > 0 {
        let before = batches.drop_last();
        law_pipeline_writes_new_commits_once(before, seen);
        law_unseen_across_batches(flat(before), batches.last(), seen);
        let w = written(batches, seen);
        assert(w.drop_last() =~= written(before, seen));
    } else {
        assert(flat(batches) =~= Seq::empty());
    }
    law_unseen_once(flat(batches), seen);
}

/// What an indexing run has to do.
pub struct IndexPlan {
    /// How many commits the range holds.
    pub commit_count: usize,
    /// Those that the database lacks, in order.
    pub new_shas: Vec<String>,
}

/// The identifiers that a database lacks.
pub open spec fn missing(all: Seq<Seq<char>>, existing: Set<Seq<char>>) -> Seq<Seq<char>> {
    all.filter(|sha: Seq<char>| !existing.contains(sha))
}

/// Plans the indexing of a range: the commits that the database lacks are processed,
/// and all are counted. With no new commit there is nothing to process.
pub fn index_git_commits(commit_shas: Vec<String>, existing: &NameSet) -> (r: IndexPlan)
    ensures
        r.commit_count == commit_shas@.len(),
        strs(r.new_shas@) == missing(strs(commit_shas@), existing@),
{
    let ghost all = strs(commit_shas@);
    let ghost lacks = |sha: Seq<char>| !existing@.contains(sha);
    let mut new_shas: Vec<String> = Vec::new();
    let n: usize = commit_shas.len();
    let mut i: usize = 0;
    proof {
        reveal(Seq::filter);
        assert(strs(new_shas@) =~= all.take(0).filter(lacks));
    }
    while i < n
        invariant
            i <= n,
            n == commit_shas@.len(),
            all == strs(commit_shas@),
            lacks == (|sha: Seq<char>| !existing@.contains(sha)),
            strs(new_shas@) == all.take(i as int).filter(lacks),
        decreases n - i,
    {
        let ghost had = strs(new_shas@);
        proof {
            reveal(Seq::filter);
            assert(all.take(i + 1).drop_last() =~= all.take(i as int));
            assert(all.take(i + 1).last() == commit_shas@[i as int]@);
        }
        if !existing.contains(commit_shas[i].as_str()) {
            new_shas.push(commit_shas[i].clone());
            assert(strs(new_shas@) =~= had.push(commit_shas@[i as int]@));
        }
        i += 1;
    }
    proof {
        assert(all.take(n as int) =~= all);
    }
    IndexPlan { commit_count: n, new_shas }
}

/// Indexing a range again, when all its commits are in the database, processes none.
pub proof fn law_indexed_once(all: Seq<Seq<char>>, existing: Set<Seq<char>>)
    requires
        forall|i: int| 0 <= i < all.len() ==> existing.contains(#[trigger] all[i]),
    ensures
        missing(all, existing).len() == 0,
    decreases all.len(),
{
    reveal(Seq::filter);
    if all.len() > 0 {
        law_indexed_once(all.drop_last(), existing);
        assert(existing.contains(all[all.len() - 1]));
    }
}

/// When a check of the database is due: for the inserter with the number zero, when the
/// batches are a multiple of 300 beyond the first, and a time is known and is 900 seconds or
/// more. A check that is due starts with the question for the database's health.
pub proof fn law_check_due(inserter_id: usize, total_batches: usize, elapsed_secs: Option<u64>)
    ensures
        batches_call(inserter_id, total_batches) <==> inserter_id == 0 && exists|k: int|
            k >= 2 && total_batches == #[trigger] (300 * k),
        check_due(inserter_id, total_batches, elapsed_secs) <==> batches_call(
            inserter_id,
            total_batches,
        ) && (elapsed_secs matches Some(secs) && secs >= 900),
        check_due(inserter_id, total_batches, elapsed_secs) ==> first_step(
            inserter_id,
            total_batches,
            elapsed_secs,
        ) is AskHealth,
        !check_due(inserter_id, total_batches, elapsed_secs) ==> first_step(
            inserter_id,
            total_batches,
            elapsed_secs,
        ) is NotDue,
{
    if total_batches % 300 == 0 {
        let k: int = total_batches as int / 300;
        assert(total_batches == 300 * k);
    }
}

/// The steps of a check: it optimizes exactly where it asked for the health and was told that
/// this is needed; it ends where it was told otherwise or nothing; an attempt to optimize ends
/// it with whether that worked. An answer that was not asked for changes nothing.
pub proof fn law_check_steps(c: OptimizationCheck, answer: Option<bool>, worked: bool)
    ensures
        after_health(c, answer) is Optimize <==> (c is AskHealth && answer == Some(true)) || c is Optimize,
        c is AskHealth && answer != Some(true) ==> after_health(c, answer) == (
        OptimizationCheck::Checked { performed: false }),
        !(c is AskHealth) ==> after_health(c, answer) == c,
        c is Optimize ==> after_optimized(c, worked) == (OptimizationCheck::Checked {
            performed: worked,
        }),
        !(c is Optimize) ==> after_optimized(c, worked) == c,
{
}

/// One more commit of a batch passes exactly where it was not seen before and none before it
/// in the batch has its identifier; it stands behind those that pass before it.
pub proof fn law_unseen_step(batch: Seq<GitCommitInfo>, c: GitCommitInfo, seen: Set<Seq<char>>)
    ensures
        unseen(Seq::<GitCommitInfo>::empty(), seen).len() == 0,
        seen.contains(c.git_sha@) || (exists|i: int|
            0 <= i < batch.len() && (#[trigger] batch[i]).git_sha@ == c.git_sha@) ==> unseen(
            batch.push(c),
            seen,
        ) == unseen(batch, seen),
        !seen.contains(c.git_sha@) && (forall|i: int|
            0 <= i < batch.len() ==> (#[trigger] batch[i]).git_sha@ != c.git_sha@) ==> unseen(
            batch.push(c),
            seen,
        ) == unseen(batch, seen).push(c),
{
    assert(batch.push(c).drop_last() =~= batch);
    if exists|i: int| 0 <= i < batch.len() && (#[trigger] batch[i]).git_sha@ == c.git_sha@ {
        let i = choose|i: int| 0 <= i < batch.len() && (#[trigger] batch[i]).git_sha@ == c.git_sha@;
        assert(shas(batch)[i] == c.git_sha@);
    }
    if shas(batch).contains(c.git_sha@) {
        let i = choose|i: int| 0 <= i < shas(batch).len() && shas(batch)[i] == c.git_sha@;
        assert(batch[i].git_sha@ == c.git_sha@);
    }
}

/// A commit of a range is processed exactly where the database lacks it.
pub proof fn law_missing(all: Seq<Seq<char>>, existing: Set<Seq<char>>, sha: Seq<char>)
    ensures
        missing(all, existing).contains(sha) <==> all.contains(sha) && !existing.contains(sha),
        (forall|i: int| 0 <= i < all.len() ==> !existing.contains(#[trigger] all[i])) ==> missing(
            all,
            existing,
        ) == all,
    decreases all.len(),
{
    reveal(Seq::filter);
    let lacks = |sha: Seq<char>| !existing.contains(sha);
    if missing(all, existing).contains(sha) {
        all.lemma_filter_contains_rev(lacks, sha);
        let k = choose|k: int|
            0 <= k < missing(all, existing).len() && missing(all, existing)[k] == sha;
        all.lemma_filter_pred(lacks, k);
    }
    if all.contains(sha) && lacks(sha) {
        let k = choose|k: int| 0 <= k < all.len() && all[k] == sha;
        all.lemma_filter_contains(lacks, k);
    }
    if all.len() > 0 && (forall|i: int|
        0 <= i < all.len() ==> !existing.contains(#[trigger] all[i])) {
        let few = all.drop_last();
        assert forall|i: int| 0 <= i < few.len() implies !existing.contains(#[trigger] few[i]) by {
            assert(few[i] == all[i]);
        }
        law_missing(few, existing, sha);
        assert(lacks(all[all.len() - 1]));
        assert(missing(all, existing) =~= all);
    } else if all.len() == 0 {
        assert(missing(all, existing) =~= all);
    }
}

/// The commits that the database lacks come in their order, each as often as it stands.
pub proof fn law_missing_step(all: Seq<Seq<char>>, sha: Seq<char>, existing: Set<Seq<char>>)
    ensures
        missing(Seq::<Seq<char>>::empty(), existing).len() == 0,
        !existing.contains(sha) ==> missing(all.push(sha), existing) == missing(all, existing).push(sha),
        existing.contains(sha) ==> missing(all.push(sha), existing) == missing(all, existing),
{
    lemma_filter_step(all, sha, |sha: Seq<char>| !existing.contains(sha));
}

} // verus!
