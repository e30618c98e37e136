//! Call chains: the functions within some number of calls of one function.
use crate::database::DatabaseManager;
use crate::lists::NameSet;
use crate::text::strs;
use vstd::prelude::*;

verus! {

/// What functions lead to: for each function that was asked about, its neighbours.
pub type CallGraph = Map<Seq<char>, Seq<Seq<char>>>;

/// Whether one function leads to another.
pub open spec fn leads_to(g: CallGraph, x: Seq<char>, y: Seq<char>) -> bool {
    g.contains_key(x) && g[x].contains(y)
}

/// The functions within `depth` steps of a function.
pub open spec fn within(g: CallGraph, start: Seq<char>, depth: nat) -> Set<Seq<char>>
    decreases depth,
{
    if depth == 0 {
        set![start]
    } else {
        let near = within(g, start, (depth - 1) as nat);
        Set::new(
            |y: Seq<char>|
                near.contains(y) || exists|x: Seq<char>| near.contains(x) && #[trigger] leads_to(g, x, y),
        )
    }
}

/// More steps reach no less.
pub proof fn law_within_grows(g: CallGraph, start: Seq<char>, small: nat, large: nat)
    requires
        small <= large,
    ensures
        within(g, start, small).subset_of(within(g, start, large)),
    decreases large,
{
    if small < large {
        law_within_grows(g, start, small, (large - 1) as nat);
    }
}

/// A larger graph reaches no less.
proof fn lemma_within_larger_graph(g: CallGraph, h: CallGraph, start: Seq<char>, depth: nat)
    requires
        forall|x: Seq<char>, y: Seq<char>| #[trigger] leads_to(g, x, y) ==> leads_to(h, x, y),
    ensures
        within(g, start, depth).subset_of(within(h, start, depth)),
    decreases depth,
{
    if depth > 0 {
        lemma_within_larger_graph(g, h, start, (depth - 1) as nat);
        let near = within(g, start, (depth - 1) as nat);
        assert forall|y: Seq<char>| within(g, start, depth).contains(y) implies within(
            h,
            start,
            depth,
        ).contains(y) by {
            if !near.contains(y) {
                let x = choose|x: Seq<char>| near.contains(x) && #[trigger] leads_to(g, x, y);
                assert(leads_to(h, x, y));
            }
        }
    }
}

/// A search for the functions of a call chain, breadth first. It asks about one
/// function at a time and is told that function's neighbours.
pub struct CallChain {
    include_forward: bool,
    include_reverse: bool,
    max_depth: usize,
    /// The functions found, with their distance, in the order in which they were found.
    order: Vec<(String, usize)>,
    /// The names in `order`.
    known: NameSet,
    /// How many of `order` are done with.
    head: usize,
    /// What the search was told.
    answers: Ghost<CallGraph>,
}

/// The names in a list of functions with their distances.
pub open spec fn names(order: Seq<(String, usize)>) -> Seq<Seq<char>> {
    order.map_values(|e: (String, usize)| e.0@)
}

/// The neighbours that an answer gives: those that the function calls, those that
/// call it, as far as they are wanted, and none where it does not exist.
pub open spec fn neighbours(
    include_forward: bool,
    include_reverse: bool,
    is_known: bool,
    callees: Seq<Seq<char>>,
    callers: Seq<Seq<char>>,
) -> Seq<Seq<char>> {
    if is_known {
        (if include_forward {
            callees
        } else {
            Seq::empty()
        }) + (if include_reverse {
            callers
        } else {
            Seq::empty()
        })
    } else {
        Seq::empty()
    }
}

/// A function that exists leads to what it calls where calls are followed, and to what
/// calls it where callers are, each whatever the other list holds, and to nothing else. One
/// that does not exist leads nowhere.
pub proof fn law_neighbours(
    include_forward: bool,
    include_reverse: bool,
    is_known: bool,
    callees: Seq<Seq<char>>,
    callers: Seq<Seq<char>>,
)
    ensures
        forall|y: Seq<char>| #[trigger]
            neighbours(include_forward, include_reverse, is_known, callees, callers).contains(y)
                <==> is_known && ((include_forward && callees.contains(y)) || (include_reverse
                && callers.contains(y))),
{
    let told = neighbours(include_forward, include_reverse, is_known, callees, callers);
    assert forall|y: Seq<char>| #[trigger]
        told.contains(y) <==> is_known && ((include_forward && callees.contains(y)) || (
        include_reverse && callers.contains(y))) by {
        let split: int = if include_forward {
            callees.len() as int
        } else {
            0
        };
        if is_known && include_forward && callees.contains(y) {
            let k = choose|k: int| 0 <= k < callees.len() && callees[k] == y;
            assert(told[k] == y);
        }
        if is_known && include_reverse && callers.contains(y) {
            let k = choose|k: int| 0 <= k < callers.len() && callers[k] == y;
            assert(told[split + k] == y);
        }
        if told.contains(y) {
            let k = choose|k: int| 0 <= k < told.len() && told[k] == y;
            if k < split {
                assert(callees[k] == y);
            } else {
                assert(callers[k - split] == y);
            }
        }
    }
}

/// Whether functions are a walk from one to another: each step is one that `step` allows.
pub open spec fn is_walk(
    step: spec_fn(Seq<char>, Seq<char>) -> bool,
    walk: Seq<Seq<char>>,
    start: Seq<char>,
    end: Seq<char>,
) -> bool {
    &&& walk.len() > 0
    &&& walk[0] == start
    &&& walk.last() == end
    &&& forall|i: int| 0 <= i < walk.len() - 1 ==> step(#[trigger] walk[i], walk[i + 1])
}

impl CallChain {
    /// What the search was told so far.
    pub closed spec fn graph(self) -> CallGraph {
        self.answers@
    }

    /// Where the search started.
    pub closed spec fn start(self) -> Seq<char> {
        self.order@[0].0@
    }

    /// How far it goes.
    pub closed spec fn depth(self) -> nat {
        self.max_depth as nat
    }

    /// Whether it follows calls forward.
    pub closed spec fn forward(self) -> bool {
        self.include_forward
    }

    /// Whether it follows calls backward.
    pub closed spec fn reverse(self) -> bool {
        self.include_reverse
    }

    /// The functions found so far.
    pub closed spec fn found(self) -> Set<Seq<char>> {
        self.known@
    }

    /// The function that the search asks about, if there is one left.
    pub closed spec fn asks(self) -> Option<Seq<char>> {
        if self.head < self.order@.len() && self.order@[self.head as int].1 < self.max_depth {
            Some(self.order@[self.head as int].0@)
        } else {
            None
        }
    }

    /// Whether no question is left.
    pub closed spec fn over(self) -> bool {
        self.head >= self.order@.len()
    }

    closed spec fn order_wf(self) -> bool {
        &&& self.order@.len() > 0
        &&& self.order@[0].1 == 0
        &&& self.head <= self.order@.len()
        &&& names(self.order@).no_duplicates()
        &&& forall|x: Seq<char>| #[trigger]
            self.known@.contains(x) <==> names(self.order@).contains(x)
        &&& forall|i: int, j: int|
            0 <= i <= j < self.order@.len() ==> (#[trigger] self.order@[i]).1 <= (
            #[trigger] self.order@[j]).1
        &&& forall|j: int|
            0 <= j < self.order@.len() ==> (#[trigger] self.order@[j]).1 <= self.max_depth
        &&& self.head == 0 ==> self.order@.len() == 1
        &&& self.head > 0 ==> forall|j: int|
            0 <= j < self.order@.len() ==> (#[trigger] self.order@[j]).1
                <= self.order@[self.head - 1].1 + 1
    }

    closed spec fn graph_wf(self) -> bool {
        let g = self.answers@;
        let start = self.order@[0].0@;
        // What was asked about is told of, and all it leads to is found.
        &&& forall|i: int|
            0 <= i < self.head && (#[trigger] self.order@[i]).1 < self.max_depth ==> self.answered(i)
        // Nothing else is told of.
        &&& forall|x: Seq<char>| #[trigger]
            g.contains_key(x) ==> exists|i: int|
                0 <= i < self.head && (#[trigger] self.order@[i]).0@ == x && self.order@[i].1
                    < self.max_depth
        // What is found is as near as its distance says.
        &&& forall|i: int|
            0 <= i < self.order@.len() ==> within(
                g,
                start,
                (#[trigger] self.order@[i]).1 as nat,
            ).contains(self.order@[i].0@)
    }

    closed spec fn answered(self, i: int) -> bool {
        let g = self.answers@;
        let x = self.order@[i].0@;
        g.contains_key(x) && forall|y: Seq<char>| #[trigger]
            g[x].contains(y) ==> exists|j: int|
                0 <= j < self.order@.len() && (#[trigger] self.order@[j]).0@ == y && self.order@[j].1
                    <= self.order@[i].1 + 1
    }

    /// What holds of every search.
    pub closed spec fn wf(self) -> bool {
        self.order_wf() && self.graph_wf()
    }

    /// Goes on to the next function to ask about and returns it; `None` where the
    /// search is over.
    pub fn next(&mut self) -> (r: Option<String>)
        requires
            old(self).wf(),
        ensures
            final(self).wf(),
            final(self).same_search(*old(self)),
            final(self).graph() == old(self).graph(),
            final(self).found() == old(self).found(),
            match r {
                Some(name) => final(self).asks() == Some(name@) && !final(self).over(),
                None => final(self).over(),
            },
    {
        while self.head < self.order.len() && self.order[self.head].1 >= self.max_depth
            invariant
                self.wf(),
                self.same_search(*old(self)),
                self.answers@ == old(self).answers@,
                self.known@ == old(self).known@,
            decreases self.order@.len() - self.head,
        {
            let ghost before = *self;
            self.head = self.head + 1;
            proof {
                assert(self.order@ == before.order@);
                assert forall|i: int|
                    0 <= i < self.head && (#[trigger] self.order@[i]).1
                        < self.max_depth implies self.answered(i) by {
                    assert(i < before.head);
                    assert(before.answered(i));
                }
                assert forall|x: Seq<char>| #[trigger]
                    self.answers@.contains_key(x) implies exists|i: int|
                    0 <= i < self.head && (#[trigger] self.order@[i]).0@ == x && self.order@[i].1
                        < self.max_depth by {
                    let i = choose|i: int|
                        0 <= i < before.head && (#[trigger] before.order@[i]).0@ == x
                            && before.order@[i].1 < before.max_depth;
                    assert(self.order@[i].0@ == x);
                }
            }
        }
        if self.head < self.order.len() {
            Some(self.order[self.head].0.clone())
        } else {
            None
        }
    }

    /// Whether two are stages of one search.
    pub open spec fn same_search(self, other: CallChain) -> bool {
        &&& self.start() == other.start()
        &&& self.depth() == other.depth()
        &&& self.forward() == other.forward()
        &&& self.reverse() == other.reverse()
    }

    fn discover(&mut self, name: &String)
        requires
            old(self).order_wf(),
            0 < old(self).head,
            old(self).order@[old(self).head - 1].1 < old(self).max_depth,
        ensures
            final(self).order_wf(),
            old(self).known@.contains(name@) ==> final(self).order@ == old(self).order@,
            !old(self).known@.contains(name@) ==> {
                &&& final(self).order@.len() == old(self).order@.len() + 1
                &&& final(self).order@.drop_last() == old(self).order@
                &&& final(self).order@.last().0@ == name@
                &&& final(self).order@.last().1 == old(self).order@[old(self).head - 1].1 + 1
            },
            final(self).known@ == old(self).known@.insert(name@),
            final(self).head == old(self).head,
            final(self).max_depth == old(self).max_depth,
            final(self).include_forward == old(self).include_forward,
            final(self).include_reverse == old(self).include_reverse,
            final(self).answers == old(self).answers,
    {
        let ghost before = self.order@;
        let depth: usize = self.order[self.head - 1].1 + 1;
        if !self.known.contains(name.as_str()) {
            self.order.push((name.clone(), depth));
            self.known.insert(name.clone());
            proof {
                assert(self.order@.drop_last() =~= before);
                assert(names(self.order@) =~= names(before).push(name@));
                assert(!names(before).contains(name@));
                assert forall|x: Seq<char>| #[trigger]
                    self.known@.contains(x) <==> names(self.order@).contains(x) by {
                    if names(before).contains(x) {
                        let k = choose|k: int| 0 <= k < names(before).len() && names(before)[k] == x;
                        assert(names(self.order@)[k] == x);
                    }
                    if x == name@ {
                        assert(names(self.order@)[before.len() as int] == x);
                    }
                    if names(self.order@).contains(x) && x != name@ {
                        let k = choose|k: int|
                            0 <= k < names(self.order@).len() && names(self.order@)[k] == x;
                        assert(names(before)[k] == x);
                        assert(names(before).contains(x));
                    }
                }
            }
        } else {
            proof {
                assert(self.known@ =~= old(self).known@.insert(name@));
            }
        }
    }

    fn discover_all(&mut self, found: &Vec<String>, Ghost(before): Ghost<CallChain>, Ghost(
        told,
    ): Ghost<Seq<Seq<char>>>)
        requires
            old(self).finding(before, told),
        ensures
            final(self).finding(before, told + strs(found@)),
    {
        let ghost all = strs(found@);
        let mut i: usize = 0;
        proof {
            assert(told + all.take(0) =~= told);
        }
        while i < found.len()
            invariant
                i <= found@.len(),
                all == strs(found@),
                self.finding(before, told + all.take(i as int)),
            decreases found@.len() - i,
        {
            let ghost was = *self;
            let ghost had = told + all.take(i as int);
            self.discover(&found[i]);
            proof {
                let now = told + all.take(i + 1);
                let y = found@[i as int]@;
                assert(all[i as int] == y);
                assert(now =~= had.push(y));
                assert forall|z: Seq<char>| #[trigger] now.contains(z) implies self.known@.contains(
                    z,
                ) by {
                    let k = choose|k: int| 0 <= k < now.len() && now[k] == z;
                    if k < had.len() {
                        assert(had[k] == z);
                        assert(had.contains(z));
                    }
                }
                assert forall|j: int| before.order@.len() <= j < self.order@.len() implies (
                #[trigger] self.order@[j]).1 == before.order@[before.head as int].1 + 1
                    && now.contains(self.order@[j].0@) by {
                    if j < was.order@.len() {
                        assert(was.order@[j] == self.order@[j]);
                        let k = choose|k: int| 0 <= k < had.len() && had[k] == self.order@[j].0@;
                        assert(now[k] == self.order@[j].0@);
                    } else {
                        assert(self.order@[j].0@ == y);
                        assert(now[had.len() as int] == y);
                    }
                }
                assert(self.order@.take(before.order@.len() as int) =~= before.order@);
                assert forall|z: Seq<char>|
                    now.contains(z) <==> #[trigger] had.contains(z) || z == y by {
                    if had.contains(z) {
                        let k = choose|k: int| 0 <= k < had.len() && had[k] == z;
                        assert(now[k] == z);
                    }
                    if z == y {
                        assert(now[had.len() as int] == z);
                    }
                }
                assert(self.known@ =~= before.known@.union(now.to_set()));
            }
            i += 1;
        }
        proof {
            assert(all.take(i as int) =~= all);
        }
    }

    /// The search `before`, one question on, with `told` found as neighbours.
    closed spec fn finding(self, before: CallChain, told: Seq<Seq<char>>) -> bool {
        &&& self.order_wf()
        &&& before.head < before.order@.len()
        &&& before.order@[before.head as int].1 < before.max_depth
        &&& self.head == before.head + 1
        &&& self.max_depth == before.max_depth
        &&& self.include_forward == before.include_forward
        &&& self.include_reverse == before.include_reverse
        &&& self.answers == before.answers
        &&& self.order@.len() >= before.order@.len()
        &&& self.order@.take(before.order@.len() as int) == before.order@
        &&& forall|z: Seq<char>| #[trigger] told.contains(z) ==> self.known@.contains(z)
        &&& forall|j: int|
            before.order@.len() <= j < self.order@.len() ==> (#[trigger] self.order@[j]).1
                == before.order@[before.head as int].1 + 1 && told.contains(self.order@[j].0@)
        &&& self.known@ == before.known@.union(told.to_set())
    }

    /// Takes the answer to the question that the search asks: whether the function
    /// exists, what it calls and what calls it.
    pub fn on_answer(&mut self, is_known: bool, callees: &Vec<String>, callers: &Vec<String>)
        requires
            old(self).wf(),
            old(self).asks() is Some,
        ensures
            final(self).wf(),
            final(self).same_search(*old(self)),
            ({
                let told = neighbours(
                    old(self).forward(),
                    old(self).reverse(),
                    is_known,
                    strs(callees@),
                    strs(callers@),
                );
                &&& final(self).graph() == old(self).graph().insert(old(self).asks()->0, told)
                &&& final(self).found() == old(self).found().union(told.to_set())
            }),
            forall|y: Seq<char>| #[trigger]
                final(self).found().contains(y) <==> old(self).found().contains(y) || (is_known && (
                (old(self).forward() && strs(callees@).contains(y)) || (old(self).reverse() && strs(
                    callers@,
                ).contains(y)))),
            forall|k: int|
                0 <= k < callees@.len() && is_known && old(self).forward()
                    ==> final(self).found().contains((#[trigger] callees@[k])@),
            forall|k: int|
                0 <= k < callers@.len() && is_known && old(self).reverse()
                    ==> final(self).found().contains((#[trigger] callers@[k])@),
            forall|y: Seq<char>| #[trigger]
                final(self).graph()[old(self).asks()->0].contains(y) <==> is_known && ((
                old(self).forward() && strs(callees@).contains(y)) || (old(self).reverse() && strs(
                    callers@,
                ).contains(y))),
    {
        let ghost before = *self;
        let n: usize = self.order.len();
        assert(self.head < n);
        self.head = self.head + 1;
        proof {
            assert(self.order@.take(before.order@.len() as int) =~= before.order@);
            assert(Seq::<Seq<char>>::empty().to_set() =~= Set::empty());
            assert(before.known@.union(Set::empty()) =~= before.known@);
            assert(self.finding(before, Seq::empty()));
        }
        let ghost mut told: Seq<Seq<char>> = Seq::empty();
        if is_known {
            if self.include_forward {
                self.discover_all(callees, Ghost(before), Ghost(told));
                proof {
                    told = told + strs(callees@);
                }
            }
            if self.include_reverse {
                self.discover_all(callers, Ghost(before), Ghost(told));
                proof {
                    told = told + strs(callers@);
                }
            }
        }
        proof {
            assert(told =~= neighbours(
                before.include_forward,
                before.include_reverse,
                is_known,
                strs(callees@),
                strs(callers@),
            ));
            let x = before.order@[before.head as int].0@;
            self.answers@ = self.answers@.insert(x, told);
            self.lemma_answered(before, told);
            law_neighbours(
                before.include_forward,
                before.include_reverse,
                is_known,
                strs(callees@),
                strs(callers@),
            );
            let all = neighbours(
                before.include_forward,
                before.include_reverse,
                is_known,
                strs(callees@),
                strs(callers@),
            );
            assert forall|y: Seq<char>| #[trigger] all.to_set().contains(y) <==> all.contains(y) by {}
            assert forall|k: int| 0 <= k < callees@.len() implies strs(callees@).contains(
                (#[trigger] callees@[k])@,
            ) by {
                assert(strs(callees@)[k] == callees@[k]@);
            }
            assert forall|k: int| 0 <= k < callers@.len() implies strs(callers@).contains(
                (#[trigger] callers@[k])@,
            ) by {
                assert(strs(callers@)[k] == callers@[k]@);
            }
        }
    }

    /// The search `before` with the answer `told` to its question.
    closed spec fn told_more(self, before: CallChain, told: Seq<Seq<char>>) -> bool {
        &&& before.wf()
        &&& before.head < before.order@.len()
        &&& self.answers@ == before.answers@.insert(before.order@[before.head as int].0@, told)
        &&& (CallChain { answers: before.answers, ..self }).finding(before, told)
    }

    proof fn lemma_told_prefix(self, before: CallChain, told: Seq<Seq<char>>)
        requires
            self.told_more(before, told),
        ensures
            self.order_wf(),
            forall|j: int|
                0 <= j < before.order@.len() ==> #[trigger] self.order@[j] == before.order@[j],
            forall|i: int|
                0 <= i < before.head ==> (#[trigger] before.order@[i]).0@
                    != before.order@[before.head as int].0@,
            !before.answers@.contains_key(before.order@[before.head as int].0@),
    {
        let at = before.head as int;
        let x = before.order@[at].0@;
        let n = before.order@.len() as int;
        assert forall|j: int| 0 <= j < n implies #[trigger] self.order@[j] == before.order@[j] by {
            assert(self.order@.take(n)[j] == self.order@[j]);
        }
        assert forall|i: int| 0 <= i < at implies (#[trigger] before.order@[i]).0@ != x by {
            assert(names(before.order@)[i] != names(before.order@)[at]);
        }
        if before.answers@.contains_key(x) {
            let i = choose|i: int|
                0 <= i < before.head && (#[trigger] before.order@[i]).0@ == x && before.order@[i].1
                    < before.max_depth;
            assert(before.order@[i].0@ != x);
        }
    }

    proof fn lemma_told_answers(self, before: CallChain, told: Seq<Seq<char>>, i: int)
        requires
            self.told_more(before, told),
            0 <= i < self.head,
            self.order@[i].1 < self.max_depth,
        ensures
            self.answered(i),
    {
        self.lemma_told_prefix(before, told);
        let g = before.answers@;
        let h = self.answers@;
        let at = before.head as int;
        let z = self.order@[i].0@;
        assert(self.order@[i] == before.order@[i]);
        if i < at {
            assert(before.answered(i));
            assert forall|y: Seq<char>| #[trigger] h[z].contains(y) implies exists|j: int|
                0 <= j < self.order@.len() && (#[trigger] self.order@[j]).0@ == y && self.order@[j].1
                    <= self.order@[i].1 + 1 by {
                assert(g[z].contains(y));
                let j = choose|j: int|
                    0 <= j < before.order@.len() && (#[trigger] before.order@[j]).0@ == y
                        && before.order@[j].1 <= before.order@[i].1 + 1;
                assert(self.order@[j] == before.order@[j]);
            }
        } else {
            assert forall|y: Seq<char>| #[trigger] h[z].contains(y) implies exists|j: int|
                0 <= j < self.order@.len() && (#[trigger] self.order@[j]).0@ == y && self.order@[j].1
                    <= self.order@[i].1 + 1 by {
                assert(told.contains(y));
                assert(self.known@.contains(y));
                assert(names(self.order@).contains(y));
                let j = choose|j: int|
                    0 <= j < names(self.order@).len() && names(self.order@)[j] == y;
                assert(self.order@[j].0@ == y);
            }
        }
    }

    proof fn lemma_told_near(self, before: CallChain, told: Seq<Seq<char>>, i: int)
        requires
            self.told_more(before, told),
            0 <= i < self.order@.len(),
        ensures
            within(self.answers@, self.order@[0].0@, self.order@[i].1 as nat).contains(
                self.order@[i].0@,
            ),
    {
        self.lemma_told_prefix(before, told);
        let g = before.answers@;
        let h = self.answers@;
        let at = before.head as int;
        let x = before.order@[at].0@;
        let start = before.order@[0].0@;
        let d = self.order@[i].1 as nat;
        assert(self.order@[0] == before.order@[0]);
        assert forall|a: Seq<char>, b: Seq<char>| #[trigger] leads_to(g, a, b) implies leads_to(
            h,
            a,
            b,
        ) by {}
        if i < before.order@.len() {
            assert(before.order@[i] == self.order@[i]);
            lemma_within_larger_graph(g, h, start, d);
        } else {
            let near = before.order@[at].1 as nat;
            assert(d == near + 1);
            lemma_within_larger_graph(g, h, start, near);
            assert(within(g, start, near).contains(x));
            assert(leads_to(h, x, self.order@[i].0@));
        }
    }

    proof fn lemma_answered(self, before: CallChain, told: Seq<Seq<char>>)
        requires
            self.told_more(before, told),
        ensures
            self.wf(),
    {
        self.lemma_told_prefix(before, told);
        let g = before.answers@;
        let h = self.answers@;
        let at = before.head as int;
        let x = before.order@[at].0@;
        assert forall|i: int|
            0 <= i < self.head && (#[trigger] self.order@[i]).1
                < self.max_depth implies self.answered(i) by {
            self.lemma_told_answers(before, told, i);
        }
        assert forall|z: Seq<char>| #[trigger] h.contains_key(z) implies exists|i: int|
            0 <= i < self.head && (#[trigger] self.order@[i]).0@ == z && self.order@[i].1
                < self.max_depth by {
            if z == x {
                assert(self.order@[at].0@ == z);
            } else {
                assert(g.contains_key(z));
                let i = choose|i: int|
                    0 <= i < before.head && (#[trigger] before.order@[i]).0@ == z
                        && before.order@[i].1 < before.max_depth;
                assert(self.order@[i].0@ == z);
            }
        }
        assert forall|i: int| 0 <= i < self.order@.len() implies within(
            h,
            self.order@[0].0@,
            (#[trigger] self.order@[i]).1 as nat,
        ).contains(self.order@[i].0@) by {
            self.lemma_told_near(before, told, i);
        }
    }

    proof fn lemma_complete(self, d: nat)
        requires
            self.wf(),
            self.over(),
            d <= self.max_depth,
        ensures
            forall|y: Seq<char>| #[trigger]
                within(self.graph(), self.start(), d).contains(y) ==> exists|j: int|
                    0 <= j < self.order@.len() && (#[trigger] self.order@[j]).0@ == y
                        && self.order@[j].1 <= d,
        decreases d,
    {
        let g = self.graph();
        if d == 0 {
            assert forall|y: Seq<char>| #[trigger]
                within(g, self.start(), d).contains(y) implies exists|j: int|
                0 <= j < self.order@.len() && (#[trigger] self.order@[j]).0@ == y
                    && self.order@[j].1 <= d by {
                assert(self.order@[0].0@ == y);
            }
        } else {
            let less = (d - 1) as nat;
            self.lemma_complete(less);
            let near = within(g, self.start(), less);
            assert forall|y: Seq<char>| #[trigger]
                within(g, self.start(), d).contains(y) implies exists|j: int|
                0 <= j < self.order@.len() && (#[trigger] self.order@[j]).0@ == y
                    && self.order@[j].1 <= d by {
                if near.contains(y) {
                    let j = choose|j: int|
                        0 <= j < self.order@.len() && (#[trigger] self.order@[j]).0@ == y
                            && self.order@[j].1 <= less;
                    assert(self.order@[j].0@ == y);
                } else {
                    let x = choose|x: Seq<char>| near.contains(x) && #[trigger] leads_to(g, x, y);
                    let i = choose|i: int|
                        0 <= i < self.order@.len() && (#[trigger] self.order@[i]).0@ == x
                            && self.order@[i].1 <= less;
                    assert(self.answered(i));
                    let j = choose|j: int|
                        0 <= j < self.order@.len() && (#[trigger] self.order@[j]).0@ == y
                            && self.order@[j].1 <= self.order@[i].1 + 1;
                    assert(self.order@[j].0@ == y);
                }
            }
        }
    }

    /// A search that is over has found exactly the functions within its depth, and
    /// has asked about each of them that lies nearer than that.
    pub proof fn law_search_is_complete(self)
        requires
            self.wf(),
            self.over(),
        ensures
            self.found() == within(self.graph(), self.start(), self.depth()),
            self.depth() > 0 ==> forall|x: Seq<char>| #[trigger]
                self.graph().contains_key(x) <==> within(
                    self.graph(),
                    self.start(),
                    (self.depth() - 1) as nat,
                ).contains(x),
    {
        let g = self.graph();
        let start = self.start();
        let max = self.depth();
        self.lemma_complete(max);
        assert forall|y: Seq<char>| #[trigger] self.found().contains(y) <==> within(
            g,
            start,
            max,
        ).contains(y) by {
            if self.known@.contains(y) {
                assert(names(self.order@).contains(y));
                let j = choose|j: int| 0 <= j < names(self.order@).len() && names(self.order@)[j] == y;
                assert(self.order@[j].0@ == y);
                law_within_grows(g, start, self.order@[j].1 as nat, max);
            }
            if within(g, start, max).contains(y) {
                let j = choose|j: int|
                    0 <= j < self.order@.len() && (#[trigger] self.order@[j]).0@ == y
                        && self.order@[j].1 <= max;
                assert(names(self.order@)[j] == y);
            }
        }
        assert(self.found() =~= within(g, start, max));
        if max > 0 {
            let less = (max - 1) as nat;
            self.lemma_complete(less);
            assert forall|x: Seq<char>| #[trigger] g.contains_key(x) <==> within(
                g,
                start,
                less,
            ).contains(x) by {
                if g.contains_key(x) {
                    let i = choose|i: int|
                        0 <= i < self.head && (#[trigger] self.order@[i]).0@ == x && self.order@[i].1
                            < self.max_depth;
                    law_within_grows(g, start, self.order@[i].1 as nat, less);
                }
                if within(g, start, less).contains(x) {
                    let j = choose|j: int|
                        0 <= j < self.order@.len() && (#[trigger] self.order@[j]).0@ == x
                            && self.order@[j].1 <= less;
                    assert(self.answered(j));
                }
            }
        }
    }

    /// Let `known` say which functions exist and `calls` which calls which, and let every
    /// answer that the search was given follow from these. Then a search that is over has
    /// found a function exactly where a walk of at most so many steps as its depth leads
    /// there from its start, each step from a function that exists along a call that it
    /// makes, where these are followed, or that is made to it, where those are.
    pub proof fn law_found_along_calls(
        self,
        known: spec_fn(Seq<char>) -> bool,
        calls: spec_fn(Seq<char>, Seq<char>) -> bool,
        step: spec_fn(Seq<char>, Seq<char>) -> bool,
    )
        requires
            self.wf(),
            self.over(),
            forall|x: Seq<char>, y: Seq<char>|
                #![trigger self.graph()[x].contains(y)]
                self.graph().contains_key(x) ==> (self.graph()[x].contains(y) <==> known(x) && ((
                self.forward() && calls(x, y)) || (self.reverse() && calls(y, x)))),
            forall|x: Seq<char>, y: Seq<char>| #[trigger]
                step(x, y) <==> known(x) && ((self.forward() && calls(x, y)) || (self.reverse()
                    && calls(y, x))),
        ensures
            forall|y: Seq<char>| #[trigger]
                self.found().contains(y) <==> exists|walk: Seq<Seq<char>>| #[trigger]
                    is_walk(step, walk, self.start(), y) && walk.len() <= self.depth() + 1,
    {
        self.law_search_is_complete();
        self.lemma_walks(known, calls, step, self.depth());
    }

    proof fn lemma_walks(
        self,
        known: spec_fn(Seq<char>) -> bool,
        calls: spec_fn(Seq<char>, Seq<char>) -> bool,
        step: spec_fn(Seq<char>, Seq<char>) -> bool,
        d: nat,
    )
        requires
            self.wf(),
            self.over(),
            d <= self.depth(),
            forall|x: Seq<char>, y: Seq<char>|
                #![trigger self.graph()[x].contains(y)]
                self.graph().contains_key(x) ==> (self.graph()[x].contains(y) <==> known(x) && ((
                self.forward() && calls(x, y)) || (self.reverse() && calls(y, x)))),
            forall|x: Seq<char>, y: Seq<char>| #[trigger]
                step(x, y) <==> known(x) && ((self.forward() && calls(x, y)) || (self.reverse()
                    && calls(y, x))),
        ensures
            forall|y: Seq<char>| #[trigger]
                within(self.graph(), self.start(), d).contains(y) <==> exists|
                    walk: Seq<Seq<char>>,
                | #[trigger]
                    is_walk(step, walk, self.start(), y) && walk.len() <= d + 1,
        decreases d,
    {
        let g = self.graph();
        let start = self.start();
        if d > 0 {
            self.lemma_walks(known, calls, step, (d - 1) as nat);
        }
        assert forall|y: Seq<char>| #[trigger] within(g, start, d).contains(y) <==> exists|
            walk: Seq<Seq<char>>,
        | #[trigger]
            is_walk(step, walk, start, y) && walk.len() <= d + 1 by {
            if within(g, start, d).contains(y) {
                if d == 0 {
                    assert(is_walk(step, seq![start], start, y));
                } else {
                    let near = within(g, start, (d - 1) as nat);
                    if !near.contains(y) {
                        let x = choose|x: Seq<char>| near.contains(x) && #[trigger] leads_to(g, x, y);
                        let walk = choose|walk: Seq<Seq<char>>| #[trigger]
                            is_walk(step, walk, start, x) && walk.len() <= d;
                        let longer = walk.push(y);
                        assert(g[x].contains(y));
                        assert forall|i: int| 0 <= i < longer.len() - 1 implies step(
                            #[trigger] longer[i],
                            longer[i + 1],
                        ) by {
                            if i < walk.len() - 1 {
                                assert(step(walk[i], walk[i + 1]));
                            } else {
                                assert(step(x, y));
                            }
                        }
                        assert(is_walk(step, longer, start, y));
                    }
                }
            }
            if exists|walk: Seq<Seq<char>>| #[trigger]
                is_walk(step, walk, start, y) && walk.len() <= d + 1 {
                let walk = choose|walk: Seq<Seq<char>>| #[trigger]
                    is_walk(step, walk, start, y) && walk.len() <= d + 1;
                if walk.len() == 1 {
                    law_within_grows(g, start, 0, d);
                    assert(within(g, start, 0).contains(start));
                } else {
                    let shorter = walk.drop_last();
                    let x = shorter.last();
                    let near = within(g, start, (d - 1) as nat);
                    assert forall|i: int| 0 <= i < shorter.len() - 1 implies step(
                        #[trigger] shorter[i],
                        shorter[i + 1],
                    ) by {
                        assert(step(walk[i], walk[i + 1]));
                    }
                    assert(is_walk(step, shorter, start, x));
                    assert(near.contains(x));
                    law_within_grows(g, start, (d - 1) as nat, (self.depth() - 1) as nat);
                    self.law_search_is_complete();
                    assert(g.contains_key(x));
                    assert(step(walk[walk.len() - 2], walk[walk.len() - 1]));
                    assert(step(x, y));
                    assert(g[x].contains(y));
                    assert(leads_to(g, x, y));
                }
            }
        }
    }

    /// Every function that was asked about has its answer in the graph, and only
    /// functions that were found are asked about.
    pub proof fn law_asked_were_found(self)
        requires
            self.wf(),
        ensures
            self.found().contains(self.start()),
            self.asks() is Some ==> self.found().contains(self.asks()->0) && !self.graph().contains_key(
                self.asks()->0,
            ),
            forall|x: Seq<char>| #[trigger] self.graph().contains_key(x) ==> self.found().contains(x),
    {
        assert(names(self.order@)[0] == self.start());
        assert forall|x: Seq<char>| #[trigger] self.graph().contains_key(x) implies self.found().contains(
            x,
        ) by {
            let i = choose|i: int|
                0 <= i < self.head && (#[trigger] self.order@[i]).0@ == x && self.order@[i].1
                    < self.max_depth;
            assert(names(self.order@)[i] == x);
        }
        if self.asks() is Some {
            assert(names(self.order@)[self.head as int] == self.asks()->0);
            if self.graph().contains_key(self.asks()->0) {
                let i = choose|i: int|
                    0 <= i < self.head && (#[trigger] self.order@[i]).0@ == self.asks()->0
                        && self.order@[i].1 < self.max_depth;
                assert(names(self.order@)[i] == names(self.order@)[self.head as int]);
            }
        }
    }

    /// The functions of the chain, each once, once the search is over: exactly those
    /// within its depth, in the graph of what it was told.
    pub fn functions(&self) -> (r: Vec<String>)
        requires
            self.wf(),
            self.over(),
        ensures
            strs(r@).no_duplicates(),
            strs(r@).to_set() == within(self.graph(), self.start(), self.depth()),
            forall|y: Seq<char>| #[trigger] strs(r@).contains(y) <==> self.found().contains(y),
    {
        let mut out: Vec<String> = Vec::new();
        let mut i: usize = 0;
        while i < self.order.len()
            invariant
                i <= self.order@.len(),
                strs(out@) == names(self.order@).take(i as int),
            decreases self.order@.len() - i,
        {
            let ghost had = strs(out@);
            out.push(self.order[i].0.clone());
            proof {
                assert(strs(out@) =~= had.push(names(self.order@)[i as int]));
                assert(strs(out@) =~= names(self.order@).take(i + 1));
            }
            i += 1;
        }
        proof {
            assert(names(self.order@).take(i as int) =~= names(self.order@));
            self.law_search_is_complete();
            assert(strs(out@).to_set() =~= self.known@);
            assert forall|y: Seq<char>| #[trigger]
                strs(out@).contains(y) <==> self.found().contains(y) by {
                assert(strs(out@).to_set().contains(y) <==> strs(out@).contains(y));
            }
        }
        out
    }
}

impl DatabaseManager {
    /// Starts a search for the functions within `max_depth` calls of a function,
    /// along the calls it makes, the calls made to it, or both.
    pub fn collect_callchain_functions(
        &self,
        start_function: &str,
        max_depth: usize,
        include_forward: bool,
        include_reverse: bool,
    ) -> (r: CallChain)
        ensures
            r.wf(),
            r.start() == start_function@,
            r.depth() == max_depth,
            r.forward() == include_forward,
            r.reverse() == include_reverse,
            r.graph() == Map::<Seq<char>, Seq<Seq<char>>>::empty(),
            r.found() == set![start_function@],
    {
        let mut order: Vec<(String, usize)> = Vec::new();
        let mut known: NameSet = NameSet::new();
        order.push((start_function.to_owned(), 0));
        known.insert(start_function.to_owned());
        let r = CallChain {
            include_forward,
            include_reverse,
            max_depth,
            order,
            known,
            head: 0,
            answers: Ghost(Map::empty()),
        };
        proof {
            assert(names(r.order@)[0] == start_function@);
            assert(known@ =~= set![start_function@]);
            assert forall|x: Seq<char>| #[trigger]
                r.known@.contains(x) <==> names(r.order@).contains(x) by {
                if x == start_function@ {
                    assert(names(r.order@)[0] == x);
                }
            }
        }
        r
    }
}

/// Two stages of one search have one start, one depth and one choice of directions.
pub proof fn law_stages_of_a_search(a: CallChain, b: CallChain)
    requires
        a.same_search(b),
    ensures
        a.start() == b.start(),
        a.depth() == b.depth(),
        a.forward() == b.forward(),
        a.reverse() == b.reverse(),
{
}

} // verus!
