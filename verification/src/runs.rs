//! Runs of the indexing pipeline: what each batch leaves to write, and what is counted.
use crate::commits::GitCommitInfo;
use crate::lists::NameSet;
use crate::pipeline::{
    batched, check_due, filter_unseen, flat, law_unseen_once, shas, unseen, written, Batcher,
    CHECK_EVERY,
};
use crate::text::{decimal, decimal_text};
use vstd::prelude::*;

verus! {

/// What a worker read successfully, in order; commits that could not be read are
/// passed over.
pub open spec fn successes<T>(results: Seq<Option<T>>) -> Seq<T>
    decreases results.len(),
{
    if results.len() == 0 {
        Seq::empty()
    } else {
        match results.last() {
            Some(item) => successes(results.drop_last()).push(item),
            None => successes(results.drop_last()),
        }
    }
}

/// Takes in what a worker read of a commit, or `None` where it could not be read. The
/// batch comes out when it is full.
pub fn gather<T>(batcher: &mut Batcher<T>, read: Option<T>) -> (r: Option<Vec<T>>)
    ensures
        final(batcher).batch_size == old(batcher).batch_size,
        match (read, r) {
            (Some(item), Some(full)) => {
                &&& full@ == old(batcher).batch@.push(item)
                &&& full@.len() >= old(batcher).batch_size
                &&& final(batcher).batch@.len() == 0
            },
            (Some(item), None) => {
                &&& final(batcher).batch@ == old(batcher).batch@.push(item)
                &&& final(batcher).batch@.len() < old(batcher).batch_size
            },
            (None, _) => r is None && final(batcher).batch@ == old(batcher).batch@,
        },
        forall|results: Seq<Option<T>>| #![trigger successes(results)]
            old(batcher).batch@ == batched(successes(results), old(batcher).batch_size as nat).1
                ==> {
                let before = batched(successes(results), old(batcher).batch_size as nat).0;
                let now = batched(successes(results.push(read)), old(batcher).batch_size as nat);
                &&& final(batcher).batch@ == now.1
                &&& now.0 == match r {
                    Some(full) => before.push(full@),
                    None => before,
                }
            },
{
    proof {
        assert forall|results: Seq<Option<T>>| #[trigger] successes(results.push(read)) == (
        match read {
            Some(item) => successes(results).push(item),
            None => successes(results),
        }) by {
            assert(results.push(read).drop_last() =~= results);
        }
    }
    match read {
        Some(item) => batcher.push(item),
        None => None,
    }
}

/// A run that indexes commits.
pub struct CommitPipeline {
    seen: NameSet,
    processed: usize,
    inserted: usize,
    existing: Ghost<Set<Seq<char>>>,
    batches: Ghost<Seq<Seq<GitCommitInfo>>>,
}

impl CommitPipeline {
    /// The commits that the database had before the run.
    pub closed spec fn existing(self) -> Set<Seq<char>> {
        self.existing@
    }

    /// The batches that have reached the inserters.
    pub closed spec fn batches(self) -> Seq<Seq<GitCommitInfo>> {
        self.batches@
    }

    /// How many commits the workers have dealt with.
    pub closed spec fn processed(self) -> usize {
        self.processed
    }

    /// How many commits were written.
    pub closed spec fn inserted(self) -> usize {
        self.inserted
    }

    /// Seen is what the database had, and what has arrived since.
    pub closed spec fn wf(self) -> bool {
        self.seen@ == self.existing@.union(shas(flat(self.batches@)).to_set())
    }

    /// Counts a commit that a worker has dealt with, whether or not it could be read.
    pub fn on_commit(&mut self)
        requires
            old(self).wf(),
        ensures
            final(self).wf(),
            final(self).existing() == old(self).existing(),
            final(self).batches() == old(self).batches(),
            final(self).processed() == old(self).processed().wrapping_add(1),
            final(self).inserted() == old(self).inserted(),
    {
        self.processed = self.processed.wrapping_add(1);
    }

    /// What is to be written of a batch that reaches an inserter: the commits that are
    /// new, or `None` where none is.
    pub fn on_batch(&mut self, batch: Vec<GitCommitInfo>) -> (r: Option<Vec<GitCommitInfo>>)
        requires
            old(self).wf(),
        ensures
            final(self).wf(),
            final(self).existing() == old(self).existing(),
            final(self).batches() == old(self).batches().push(batch@),
            final(self).processed() == old(self).processed(),
            final(self).inserted() == old(self).inserted(),
            match r {
                Some(fresh) => fresh@.len() > 0 && fresh@ == written(
                    final(self).batches(),
                    old(self).existing(),
                ).last(),
                None => written(final(self).batches(), old(self).existing()).last().len() == 0,
            },
    {
        let ghost before = self.batches@;
        let ghost arrived = batch@;
        let ghost known = self.existing@;
        let fresh = filter_unseen(batch, &mut self.seen);
        self.batches = Ghost(before.push(arrived));
        proof {
            let now = before.push(arrived);
            assert(now.drop_last() =~= before);
            assert(flat(now) == flat(before) + arrived);
            lemma_shas_joined(flat(before), arrived);
            assert(self.seen@ =~= known.union(shas(flat(now)).to_set()));
            assert(written(now, known).last() == unseen(
                arrived,
                known.union(shas(flat(before)).to_set()),
            ));
        }
        if fresh.len() > 0 {
            Some(fresh)
        } else {
            None
        }
    }

    /// Counts the commits of a batch that was written. Of one that could not be written
    /// nothing is counted.
    pub fn on_inserted(&mut self, count: usize, worked: bool)
        requires
            old(self).wf(),
        ensures
            final(self).wf(),
            final(self).existing() == old(self).existing(),
            final(self).batches() == old(self).batches(),
            final(self).processed() == old(self).processed(),
            final(self).inserted() == (if worked {
                old(self).inserted().wrapping_add(count)
            } else {
                old(self).inserted()
            }),
    {
        if worked {
            self.inserted = self.inserted.wrapping_add(count);
        }
    }

    /// How many commits the workers have dealt with.
    pub fn processed_count(&self) -> (r: usize)
        ensures
            r == self.processed(),
    {
        self.processed
    }

    /// What is shown while the run goes on.
    pub fn progress(&self) -> (r: String)
        ensures
            r@ == decimal(self.inserted() as nat) + " inserted"@,
    {
        let mut out = decimal_text(self.inserted as u64);
        out.append(" inserted");
        out
    }

    /// What is shown when the run is over.
    pub fn summary(&self) -> (r: String)
        ensures
            r@ == "Complete: "@ + decimal(self.processed() as nat) + " commits processed"@,
    {
        let mut out: String = "Complete: ".to_owned();
        out.append(decimal_text(self.processed as u64).as_str());
        out.append(" commits processed");
        out
    }
}

/// The identifiers of one list behind another.
proof fn lemma_shas_joined(a: Seq<GitCommitInfo>, b: Seq<GitCommitInfo>)
    ensures
        shas(a + b).to_set() == shas(a).to_set().union(shas(b).to_set()),
{
    let both = shas(a + b);
    assert(both =~= shas(a) + shas(b));
    assert forall|x: Seq<char>| #[trigger] both.to_set().contains(x) <==> shas(a).to_set().union(
        shas(b).to_set(),
    ).contains(x) by {
        if shas(a).contains(x) {
            let i = choose|i: int| 0 <= i < shas(a).len() && shas(a)[i] == x;
            assert(both[i] == x);
        }
        if shas(b).contains(x) {
            let i = choose|i: int| 0 <= i < shas(b).len() && shas(b)[i] == x;
            assert(both[shas(a).len() + i] == x);
        }
        if both.contains(x) {
            let i = choose|i: int| 0 <= i < both.len() && both[i] == x;
            if i < shas(a).len() {
                assert(shas(a)[i] == x);
            } else {
                assert(shas(b)[i - shas(a).len()] == x);
            }
        }
    }
    assert(both.to_set() =~= shas(a).to_set().union(shas(b).to_set()));
}

/// Starts a run that indexes commits, in a database that has some.
pub fn process_commits_pipeline(existing_commits: NameSet) -> (r: CommitPipeline)
    ensures
        r.wf(),
        r.existing() == existing_commits@,
        r.batches().len() == 0,
        r.processed() == 0,
        r.inserted() == 0,
{
    let ghost known = existing_commits@;
    let r = CommitPipeline {
        seen: existing_commits,
        processed: 0,
        inserted: 0,
        existing: Ghost(known),
        batches: Ghost(Seq::empty()),
    };
    proof {
        let none = shas(flat(Seq::<Seq<GitCommitInfo>>::empty()));
        assert(none.len() == 0);
        assert(r.seen@ =~= known.union(none.to_set()));
    }
    r
}

/// A run that indexes the mail of an archive.
pub struct LorePipeline {
    pub processed: usize,
    pub inserted: usize,
    /// How many batches were written.
    pub batches: usize,
}

/// Starts a run that indexes the mail of an archive.
pub fn process_lore_commits_pipeline() -> (r: LorePipeline)
    ensures
        r == (LorePipeline { processed: 0, inserted: 0, batches: 0 }),
{
    LorePipeline { processed: 0, inserted: 0, batches: 0 }
}

impl LorePipeline {
    /// Counts a mail that a worker has dealt with, whether or not it could be read.
    pub fn on_commit(&mut self)
        ensures
            *final(self) == (LorePipeline {
                processed: old(self).processed.wrapping_add(1),
                ..*old(self)
            }),
    {
        self.processed = self.processed.wrapping_add(1);
    }

    /// Counts a batch that was written, and gives its number: with it a look at the
    /// database's health may be due. A batch that could not be written has none.
    pub fn on_inserted(&mut self, count: usize, worked: bool) -> (r: Option<usize>)
        ensures
            if worked {
                &&& *final(self) == (LorePipeline {
                    inserted: old(self).inserted.wrapping_add(count),
                    batches: old(self).batches.wrapping_add(1),
                    ..*old(self)
                })
                &&& r == Some(final(self).batches)
            } else {
                *final(self) == *old(self) && r is None
            },
    {
        if !worked {
            return None;
        }
        self.inserted = self.inserted.wrapping_add(count);
        self.batches = self.batches.wrapping_add(1);
        Some(self.batches)
    }

    /// What is shown while the run goes on.
    pub fn progress(&self) -> (r: String)
        ensures
            r@ == "Inserted "@ + decimal(self.inserted as nat) + " emails"@,
    {
        let mut out: String = "Inserted ".to_owned();
        out.append(decimal_text(self.inserted as u64).as_str());
        out.append(" emails");
        out
    }

    /// What is shown when the run is over.
    pub fn summary(&self) -> (r: String)
        ensures
            r@ == "Processed "@ + decimal(self.processed as nat) + " emails, inserted "@ + decimal(
                self.inserted as nat,
            ),
    {
        let mut out: String = "Processed ".to_owned();
        out.append(decimal_text(self.processed as u64).as_str());
        out.append(" emails, inserted ");
        out.append(decimal_text(self.inserted as u64).as_str());
        out
    }
}

/// A commit that reaches the inserters is written in one batch of a run at most, and
/// never where the database had it before.
pub proof fn law_no_commit_is_written_twice(
    batches: Seq<Seq<GitCommitInfo>>,
    existing: Set<Seq<char>>,
    i: int,
    j: int,
    sha: Seq<char>,
)
    requires
        0 <= i < j < batches.len(),
        shas(written(batches, existing)[i]).contains(sha),
    ensures
        !shas(written(batches, existing)[j]).contains(sha),
        !existing.contains(sha),
{
    lemma_written(batches, existing, i);
    lemma_written(batches, existing, j);
    law_unseen_once(batches[i], existing.union(shas(flat(batches.take(i))).to_set()));
    law_unseen_once(batches[j], existing.union(shas(flat(batches.take(j))).to_set()));
    assert(shas(batches[i]).contains(sha));
    lemma_part_of_flat(batches.take(j), i);
    assert(batches.take(j)[i] == batches[i]);
    assert(shas(flat(batches.take(j))).to_set().contains(sha));
}

/// What is written of a batch depends on what came before it.
proof fn lemma_written(batches: Seq<Seq<GitCommitInfo>>, seen: Set<Seq<char>>, i: int)
    requires
        0 <= i < batches.len(),
    ensures
        written(batches, seen).len() == batches.len(),
        written(batches, seen)[i] == unseen(
            batches[i],
            seen.union(shas(flat(batches.take(i))).to_set()),
        ),
    decreases batches.len(),
{
    let before = batches.drop_last();
    if i < before.len() {
        lemma_written(before, seen, i);
        assert(before.take(i) =~= batches.take(i));
    } else {
        assert(before =~= batches.take(i));
        if before.len() > 0 {
            lemma_written(before, seen, 0);
        } else {
            assert(written(before, seen).len() == 0);
        }
    }
}

/// What a batch holds is in all of them.
proof fn lemma_part_of_flat(batches: Seq<Seq<GitCommitInfo>>, i: int)
    requires
        0 <= i < batches.len(),
    ensures
        forall|x: Seq<char>| #[trigger]
            shas(batches[i]).contains(x) ==> shas(flat(batches)).contains(x),
    decreases batches.len(),
{
    let before = batches.drop_last();
    lemma_shas_joined(flat(before), batches.last());
    if i < before.len() {
        lemma_part_of_flat(before, i);
    }
    assert forall|x: Seq<char>| #[trigger] shas(batches[i]).contains(x) implies shas(
        flat(batches),
    ).contains(x) by {
        if i < before.len() {
            assert(before[i] == batches[i]);
            assert(shas(flat(before)).contains(x));
            assert(shas(flat(before)).to_set().contains(x));
        } else {
            assert(shas(batches.last()).to_set().contains(x));
        }
        assert(shas(flat(batches)).to_set().contains(x));
    }
}

/// Between two checks of the database lie at least `CHECK_EVERY` batches.
pub proof fn law_checks_are_apart(
    first: usize,
    second: usize,
    inserters: (usize, usize),
    elapsed: (Option<u64>, Option<u64>),
)
    requires
        first < second,
        check_due(inserters.0, first, elapsed.0),
        check_due(inserters.1, second, elapsed.1),
    ensures
        second - first >= CHECK_EVERY,
{
}

/// What was read is kept in order, and what could not be read is passed over.
pub proof fn law_successes<T>(results: Seq<Option<T>>, read: Option<T>)
    ensures
        successes(Seq::<Option<T>>::empty()).len() == 0,
        read matches Some(item) ==> successes(results.push(read)) == successes(results).push(item),
        read is None ==> successes(results.push(read)) == successes(results),
{
    assert(results.push(read).drop_last() =~= results);
}

/// What is written of one more batch: of its commits those that the database did not have and
/// that came neither in a batch before nor before in this one, in their order.
pub proof fn law_one_more_batch(
    batches: Seq<Seq<GitCommitInfo>>,
    batch: Seq<GitCommitInfo>,
    existing: Set<Seq<char>>,
    i: int,
)
    requires
        0 <= i < batch.len(),
    ensures
        shas(written(batches.push(batch), existing).last()).contains(batch[i].git_sha@) <==> (
        !existing.contains(batch[i].git_sha@) && !shas(flat(batches)).contains(batch[i].git_sha@)),
        written(batches.push(batch), existing).drop_last() == written(batches, existing),
        shas(written(batches.push(batch), existing).last()).no_duplicates(),
{
    let all = batches.push(batch);
    assert(all.drop_last() =~= batches);
    let seen = existing.union(shas(flat(batches)).to_set());
    law_unseen_once(batch, seen);
    assert(written(all, existing).last() == unseen(batch, seen));
    assert(written(all, existing).drop_last() =~= written(batches, existing));
    assert(shas(batch)[i] == batch[i].git_sha@);
    assert(shas(batch).contains(batch[i].git_sha@));
}

} // verus!
