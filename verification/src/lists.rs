//! Lists of texts without repetition, in first-come order or sorted.
use crate::text::{chars_of, strs};
use vstd::hash_set::StringHashSet;
use vstd::prelude::*;

verus! {

/// A set of names.
pub struct NameSet {
    names: StringHashSet,
}

impl View for NameSet {
    type V = Set<Seq<char>>;

    closed spec fn view(&self) -> Set<Seq<char>> {
        self.names@
    }
}

impl NameSet {
    /// The empty set.
    pub fn new() -> (r: NameSet)
        ensures
            r@ == Set::<Seq<char>>::empty(),
    {
        NameSet { names: StringHashSet::new() }
    }

    /// Takes a name in, and tells whether it is new.
    pub fn insert(&mut self, name: String) -> (r: bool)
        ensures
            final(self)@ == old(self)@.insert(name@),
            r == !old(self)@.contains(name@),
    {
        self.names.insert(name)
    }

    /// Whether a name is in the set.
    pub fn contains(&self, name: &str) -> (r: bool)
        ensures
            r == self@.contains(name@),
    {
        self.names.contains(name)
    }
}

/// The items of a list, each where it first occurs.
pub open spec fn firsts(s: Seq<Seq<char>>) -> Seq<Seq<char>>
    decreases s.len(),
{
    if s.len() == 0 {
        Seq::empty()
    } else {
        let before = firsts(s.drop_last());
        if before.contains(s.last()) {
            before
        } else {
            before.push(s.last())
        }
    }
}

/// `firsts` keeps exactly the items of the list, and none twice.
pub proof fn lemma_firsts(s: Seq<Seq<char>>)
    ensures
        firsts(s).no_duplicates(),
        forall|x: Seq<char>| #[trigger] firsts(s).contains(x) <==> s.contains(x),
        firsts(s).len() <= s.len(),
    decreases s.len(),
{
    if s.len() > 0 {
        let head = s.drop_last();
        lemma_firsts(head);
        let before = firsts(head);
        assert forall|x: Seq<char>| #[trigger] firsts(s).contains(x) implies s.contains(x) by {
            if before.contains(x) {
                let i = choose|i: int| 0 <= i < head.len() && head[i] == x;
                assert(s[i] == x);
            } else {
                assert(s[s.len() - 1] == x);
            }
        }
        assert forall|x: Seq<char>| s.contains(x) implies #[trigger] firsts(s).contains(x) by {
            let i = choose|i: int| 0 <= i < s.len() && s[i] == x;
            if i < head.len() {
                assert(head[i] == x);
                assert(before.contains(x));
                let k = choose|k: int| 0 <= k < before.len() && before[k] == x;
                assert(firsts(s)[k] == x);
            } else if !before.contains(x) {
                assert(firsts(s)[before.len() as int] == x);
            }
        }
    }
}

/// The items of a list without repetition, in the order in which they first occur.
pub fn distinct(items: Vec<String>) -> (r: Vec<String>)
    ensures
        strs(r@) == firsts(strs(items@)),
{
    let mut out: Vec<String> = Vec::new();
    let mut seen: StringHashSet = StringHashSet::new();
    let mut i: usize = 0;
    while i < items.len()
        invariant
            0 <= i <= items@.len(),
            strs(out@) == firsts(strs(items@).take(i as int)),
            forall|x: Seq<char>| seen@.contains(x) <==> #[trigger] strs(out@).contains(x),
        decreases items@.len() - i,
    {
        let ghost done = strs(out@);
        let ghost was = seen@;
        proof {
            assert(strs(items@).take(i + 1).drop_last() =~= strs(items@).take(i as int));
        }
        if seen.insert(items[i].clone()) {
            out.push(items[i].clone());
            proof {
                assert(strs(out@) =~= done.push(items@[i as int]@));
                assert forall|x: Seq<char>|
                    seen@.contains(x) <==> #[trigger] strs(out@).contains(x) by {
                    if done.contains(x) {
                        let k = choose|k: int| 0 <= k < done.len() && done[k] == x;
                        assert(strs(out@)[k] == x);
                    }
                    if x == items@[i as int]@ {
                        assert(strs(out@)[done.len() as int] == x);
                    }
                    if strs(out@).contains(x) {
                        let k = choose|k: int| 0 <= k < strs(out@).len() && strs(out@)[k] == x;
                        if k < done.len() {
                            assert(done[k] == x);
                        }
                    }
                    assert(done.contains(x) <==> was.contains(x));
                }
            }
        } else {
            proof {
                assert(seen@ =~= was);
            }
        }
        i += 1;
    }
    proof {
        assert(strs(items@).take(i as int) =~= strs(items@));
    }
    out
}

/// Whether `a` comes strictly before `b`: character by character, by code point,
/// a text before its extensions.
pub open spec fn precedes(a: Seq<char>, b: Seq<char>) -> bool
    decreases a.len(),
{
    if b.len() == 0 {
        false
    } else if a.len() == 0 {
        true
    } else if a[0] == b[0] {
        precedes(a.drop_first(), b.drop_first())
    } else {
        (a[0] as int) < (b[0] as int)
    }
}

/// No text precedes itself.
pub proof fn lemma_precedes_irreflexive(a: Seq<char>)
    ensures
        !precedes(a, a),
    decreases a.len(),
{
    if a.len() > 0 {
        lemma_precedes_irreflexive(a.drop_first());
    }
}

/// The order is transitive.
pub proof fn lemma_precedes_transitive(a: Seq<char>, b: Seq<char>, c: Seq<char>)
    requires
        precedes(a, b),
        precedes(b, c),
    ensures
        precedes(a, c),
    decreases a.len(),
{
    if a.len() > 0 && b.len() > 0 && c.len() > 0 && a[0] == b[0] && b[0] == c[0] {
        lemma_precedes_transitive(a.drop_first(), b.drop_first(), c.drop_first());
    }
}

/// Of two different texts one precedes the other.
pub proof fn lemma_precedes_total(a: Seq<char>, b: Seq<char>)
    ensures
        a == b || precedes(a, b) || precedes(b, a),
    decreases a.len(),
{
    if a.len() > 0 && b.len() > 0 {
        if a[0] == b[0] {
            lemma_precedes_total(a.drop_first(), b.drop_first());
            if a.drop_first() == b.drop_first() {
                assert(a =~= seq![a[0]] + a.drop_first());
                assert(b =~= seq![b[0]] + b.drop_first());
            }
        } else {
            assert((a[0] as int) != (b[0] as int));
        }
    } else if a.len() == 0 && b.len() == 0 {
        assert(a =~= b);
    }
}

/// Each text precedes all that follow it.
pub open spec fn ascending(s: Seq<Seq<char>>) -> bool {
    forall|i: int, j: int|
        0 <= i < j < s.len() ==> precedes(#[trigger] s[i], #[trigger] s[j])
}

fn code_point(c: char) -> (n: u32)
    ensures
        n == c as int,
{
    c as u32
}

fn text_precedes(a: &str, b: &str) -> (r: bool)
    ensures
        r == precedes(a@, b@),
{
    let x: Vec<char> = chars_of(a);
    let y: Vec<char> = chars_of(b);
    let mut i: usize = 0;
    proof {
        assert(x@.skip(0) =~= x@);
        assert(y@.skip(0) =~= y@);
    }
    loop
        invariant
            x@ == a@,
            y@ == b@,
            i <= x@.len(),
            i <= y@.len(),
            precedes(a@, b@) == precedes(x@.skip(i as int), y@.skip(i as int)),
        decreases x@.len() - i,
    {
        if i == y.len() {
            return false;
        }
        if i == x.len() {
            return true;
        }
        if x[i] != y[i] {
            return code_point(x[i]) < code_point(y[i]);
        }
        proof {
            assert(x@.skip(i as int).drop_first() =~= x@.skip(i + 1));
            assert(y@.skip(i as int).drop_first() =~= y@.skip(i + 1));
        }
        i += 1;
    }
}

/// Puts `item` where it belongs in an ascending list, unless it is there already.
fn insert_sorted(v: &mut Vec<String>, item: String)
    requires
        ascending(strs(old(v)@)),
    ensures
        ascending(strs(final(v)@)),
        forall|x: Seq<char>|
            #[trigger] strs(final(v)@).contains(x) <==> strs(old(v)@).contains(x) || x == item@,
{
    let ghost before = strs(v@);
    let mut lo: usize = 0;
    let mut hi: usize = v.len();
    while lo < hi
        invariant
            lo <= hi <= v@.len(),
            v@ == old(v)@,
            before == strs(v@),
            ascending(before),
            forall|j: int| 0 <= j < lo ==> precedes(#[trigger] before[j], item@),
            forall|j: int| hi <= j < before.len() ==> !precedes(#[trigger] before[j], item@),
        decreases hi - lo,
    {
        let mid: usize = lo + (hi - lo) / 2;
        if text_precedes(v[mid].as_str(), item.as_str()) {
            proof {
                assert forall|j: int| 0 <= j < mid + 1 implies precedes(
                    #[trigger] before[j],
                    item@,
                ) by {
                    if j < mid {
                        lemma_precedes_transitive(before[j], before[mid as int], item@);
                    }
                }
            }
            lo = mid + 1;
        } else {
            proof {
                assert forall|j: int| mid <= j < before.len() implies !precedes(
                    #[trigger] before[j],
                    item@,
                ) by {
                    if j > mid && precedes(before[j], item@) {
                        lemma_precedes_transitive(before[mid as int], before[j], item@);
                    }
                }
            }
            hi = mid;
        }
    }
    if lo < v.len() && crate::text::same(v[lo].as_str(), item.as_str()) {
        proof {
            assert(before[lo as int] == item@);
        }
        return;
    }
    let ghost text = item@;
    v.insert(lo, item);
    proof {
        let after = strs(v@);
        assert(after =~= before.insert(lo as int, text));
        assert forall|i: int, j: int| 0 <= i < j < after.len() implies precedes(
            #[trigger] after[i],
            #[trigger] after[j],
        ) by {
            if i == lo {
                let b = before[j - 1];
                lemma_precedes_total(b, text);
                if j - 1 > lo {
                    lemma_precedes_total(before[lo as int], text);
                    lemma_precedes_transitive(text, before[lo as int], b);
                }
            } else if j == lo {
            } else {
                let i0 = if i < lo {
                    i
                } else {
                    i - 1
                };
                let j0 = if j < lo {
                    j
                } else {
                    j - 1
                };
                assert(after[i] == before[i0]);
                assert(after[j] == before[j0]);
            }
        }
        assert forall|x: Seq<char>|
            #[trigger] after.contains(x) <==> before.contains(x) || x == text by {
            if before.contains(x) {
                let k = choose|k: int| 0 <= k < before.len() && before[k] == x;
                if k < lo {
                    assert(after[k] == x);
                } else {
                    assert(after[k + 1] == x);
                }
            }
            if x == text {
                assert(after[lo as int] == x);
            }
            if after.contains(x) {
                let k = choose|k: int| 0 <= k < after.len() && after[k] == x;
                if k < lo {
                    assert(before[k] == x);
                } else if k > lo {
                    assert(before[k - 1] == x);
                }
            }
        }
    }
}

/// Whether `r` lists the items of `s` in ascending order, each once.
pub open spec fn sorted_listing(r: Seq<Seq<char>>, s: Seq<Seq<char>>) -> bool {
    ascending(r) && forall|x: Seq<char>| #[trigger] r.contains(x) <==> s.contains(x)
}

/// The items of a list in ascending order, each once.
pub fn sorted_distinct(items: Vec<String>) -> (r: Vec<String>)
    ensures
        sorted_listing(strs(r@), strs(items@)),
{
    let mut out: Vec<String> = Vec::new();
    let mut i: usize = 0;
    while i < items.len()
        invariant
            0 <= i <= items@.len(),
            sorted_listing(strs(out@), strs(items@).take(i as int)),
        decreases items@.len() - i,
    {
        let ghost before = strs(items@).take(i as int);
        insert_sorted(&mut out, items[i].clone());
        proof {
            let after = strs(items@).take(i + 1);
            assert(after =~= before.push(items@[i as int]@));
            assert forall|x: Seq<char>|
                #[trigger] strs(out@).contains(x) <==> after.contains(x) by {
                if before.contains(x) {
                    let k = choose|k: int| 0 <= k < before.len() && before[k] == x;
                    assert(after[k] == x);
                }
                if x == items@[i as int]@ {
                    assert(after[i as int] == x);
                }
                if after.contains(x) {
                    let k = choose|k: int| 0 <= k < after.len() && after[k] == x;
                    if k < before.len() {
                        assert(before[k] == x);
                    }
                }
            }
        }
        i += 1;
    }
    proof {
        assert(strs(items@).take(i as int) =~= strs(items@));
    }
    out
}

/// A set of texts has one ascending listing.
pub proof fn law_sorted_listing_unique(r1: Seq<Seq<char>>, r2: Seq<Seq<char>>, s: Seq<Seq<char>>)
    requires
        sorted_listing(r1, s),
        sorted_listing(r2, s),
    ensures
        r1 == r2,
    decreases r1.len(),
{
    if r1.len() == 0 {
        if r2.len() > 0 {
            assert(r2.contains(r2[0]));
            assert(r1.contains(r2[0]));
        }
        assert(r1 =~= r2);
    } else {
        assert(r1.contains(r1.last()));
        assert(r2.contains(r1.last()));
        assert(r2.contains(r2.last()));
        assert(r1.contains(r2.last()));
        let i = choose|i: int| 0 <= i < r1.len() && r1[i] == r2.last();
        let j = choose|j: int| 0 <= j < r2.len() && r2[j] == r1.last();
        if i < r1.len() - 1 && j < r2.len() - 1 {
            lemma_precedes_transitive(r1.last(), r2.last(), r1.last());
            lemma_precedes_irreflexive(r1.last());
        }
        assert(r1.last() == r2.last());
        let h1 = r1.drop_last();
        let h2 = r2.drop_last();
        assert forall|x: Seq<char>| #[trigger] h2.contains(x) <==> h1.contains(x) by {
            lemma_precedes_irreflexive(x);
            if h2.contains(x) {
                let k = choose|k: int| 0 <= k < h2.len() && h2[k] == x;
                assert(r2[k] == x);
                assert(r2.contains(x));
                assert(r1.contains(x));
                let m = choose|m: int| 0 <= m < r1.len() && r1[m] == x;
                assert(precedes(x, r2.last()));
                assert(m < h1.len());
                assert(h1[m] == x);
            }
            if h1.contains(x) {
                let k = choose|k: int| 0 <= k < h1.len() && h1[k] == x;
                assert(r1[k] == x);
                assert(r1.contains(x));
                assert(r2.contains(x));
                let m = choose|m: int| 0 <= m < r2.len() && r2[m] == x;
                assert(precedes(x, r1.last()));
                assert(m < h2.len());
                assert(h2[m] == x);
            }
        }
        law_sorted_listing_unique(h1, h2, h1);
        assert(r1 =~= h1.push(r1.last()));
        assert(r2 =~= h2.push(r2.last()));
    }
}

/// What is kept of distinct texts is distinct, and is what satisfies the condition.
pub proof fn lemma_filter_distinct(s: Seq<Seq<char>>, keep: spec_fn(Seq<char>) -> bool)
    requires
        s.no_duplicates(),
    ensures
        s.filter(keep).no_duplicates(),
        forall|x: Seq<char>| #[trigger] s.filter(keep).contains(x) <==> s.contains(x) && keep(x),
    decreases s.len(),
{
    reveal(Seq::filter);
    if s.len() > 0 {
        let rest = s.drop_last();
        let last = s.last();
        assert(rest.no_duplicates()) by {
            assert forall|i: int, j: int|
                0 <= i < rest.len() && 0 <= j < rest.len() && i != j implies rest[i] != rest[j] by {
                assert(s[i] != s[j]);
            }
        }
        lemma_filter_distinct(rest, keep);
        let few = rest.filter(keep);
        let all = s.filter(keep);
        assert(!rest.contains(last)) by {
            if rest.contains(last) {
                let k = choose|k: int| 0 <= k < rest.len() && rest[k] == last;
                assert(s[k] != s[s.len() - 1]);
            }
        }
        assert(!few.contains(last));
        if keep(last) {
            assert(all =~= few.push(last));
        }
        assert forall|x: Seq<char>| #[trigger] all.contains(x) <==> s.contains(x) && keep(x) by {
            if all.contains(x) {
                let k = choose|k: int| 0 <= k < all.len() && all[k] == x;
                if k < few.len() {
                    assert(few[k] == x);
                    assert(few.contains(x));
                    let m = choose|m: int| 0 <= m < rest.len() && rest[m] == x;
                    assert(s[m] == x);
                } else {
                    assert(s[s.len() - 1] == x);
                }
            }
            if s.contains(x) && keep(x) {
                let m = choose|m: int| 0 <= m < s.len() && s[m] == x;
                if m < rest.len() {
                    assert(rest[m] == x);
                    assert(few.contains(x));
                    let k = choose|k: int| 0 <= k < few.len() && few[k] == x;
                    assert(all[k] == x);
                } else {
                    assert(all[few.len() as int] == x);
                }
            }
        }
    }
}

/// One text comes before another exactly where they agree up to a place at which the one
/// ends, or has a character of a lower code point than the other.
pub proof fn law_precedes(a: Seq<char>, b: Seq<char>)
    ensures
        precedes(a, b) <==> exists|k: int|
            0 <= k <= a.len() && k < b.len() && #[trigger] a.take(k) == b.take(k) && (k == a.len() || (
            a[k] as int) < (b[k] as int)),
    decreases a.len(),
{
    if b.len() == 0 {
    } else if a.len() == 0 {
        assert(a.take(0) =~= b.take(0));
    } else {
        let ra = a.drop_first();
        let rb = b.drop_first();
        law_precedes(ra, rb);
        if a[0] == b[0] {
            if precedes(ra, rb) {
                let k = choose|k: int|
                    0 <= k <= ra.len() && k < rb.len() && #[trigger] ra.take(k) == rb.take(k) && (k
                        == ra.len() || (ra[k] as int) < (rb[k] as int));
                assert(a.take(k + 1) =~= seq![a[0]] + ra.take(k));
                assert(b.take(k + 1) =~= seq![b[0]] + rb.take(k));
            }
            if exists|k: int|
                0 <= k <= a.len() && k < b.len() && #[trigger] a.take(k) == b.take(k) && (k == a.len()
                    || (a[k] as int) < (b[k] as int)) {
                let k = choose|k: int|
                    0 <= k <= a.len() && k < b.len() && #[trigger] a.take(k) == b.take(k) && (k
                        == a.len() || (a[k] as int) < (b[k] as int));
                assert(k > 0);
                assert(ra.take(k - 1) =~= a.take(k).drop_first());
                assert(rb.take(k - 1) =~= b.take(k).drop_first());
            }
        } else {
            if (a[0] as int) < (b[0] as int) {
                assert(a.take(0) =~= b.take(0));
            }
            if exists|k: int|
                0 <= k <= a.len() && k < b.len() && #[trigger] a.take(k) == b.take(k) && (k == a.len()
                    || (a[k] as int) < (b[k] as int)) {
                let k = choose|k: int|
                    0 <= k <= a.len() && k < b.len() && #[trigger] a.take(k) == b.take(k) && (k
                        == a.len() || (a[k] as int) < (b[k] as int));
                if k > 0 {
                    assert(a.take(k)[0] == b.take(k)[0]);
                }
            }
        }
    }
}

/// An item joins the list of first occurrences, behind all others, exactly where the items
/// before it do not hold it.
pub proof fn law_firsts(s: Seq<Seq<char>>, x: Seq<char>)
    ensures
        firsts(Seq::<Seq<char>>::empty()).len() == 0,
        s.contains(x) ==> firsts(s.push(x)) == firsts(s),
        !s.contains(x) ==> firsts(s.push(x)) == firsts(s).push(x),
{
    lemma_firsts(s);
    assert(s.push(x).drop_last() =~= s);
}

/// A sorted listing holds the items of a list, all of them and no others, and each comes
/// before the next: they agree up to a place where the one ends or has the lower code point.
pub proof fn law_sorted_listing(r: Seq<Seq<char>>, s: Seq<Seq<char>>, i: int, j: int)
    requires
        sorted_listing(r, s),
        0 <= i < j < r.len(),
    ensures
        r[i] != r[j],
        forall|x: Seq<char>| #[trigger] r.contains(x) <==> s.contains(x),
        exists|k: int|
            0 <= k <= r[i].len() && k < r[j].len() && #[trigger] r[i].take(k) == r[j].take(k) && (k
                == r[i].len() || (r[i][k] as int) < (r[j][k] as int)),
{
    assert(precedes(r[i], r[j]));
    law_precedes(r[i], r[j]);
    lemma_precedes_irreflexive(r[i]);
}

/// One more item is kept behind those that are kept before it, or not at all.
pub proof fn lemma_filter_step<T>(s: Seq<T>, x: T, keep: spec_fn(T) -> bool)
    ensures
        Seq::<T>::empty().filter(keep).len() == 0,
        keep(x) ==> s.push(x).filter(keep) == s.filter(keep).push(x),
        !keep(x) ==> s.push(x).filter(keep) == s.filter(keep),
{
    reveal(Seq::filter);
    assert(s.push(x).drop_last() =~= s);
    assert(Seq::<T>::empty().filter(keep).len() == 0);
}

/// Two conditions that agree on the items of a list keep the same of them.
pub proof fn lemma_same_filter(
    s: Seq<Seq<char>>,
    a: spec_fn(Seq<char>) -> bool,
    b: spec_fn(Seq<char>) -> bool,
)
    requires
        forall|i: int| 0 <= i < s.len() ==> a(#[trigger] s[i]) == b(s[i]),
    ensures
        s.filter(a) == s.filter(b),
    decreases s.len(),
{
    reveal(Seq::filter);
    if s.len() > 0 {
        let rest = s.drop_last();
        assert forall|i: int| 0 <= i < rest.len() implies a(#[trigger] rest[i]) == b(rest[i]) by {
            assert(rest[i] == s[i]);
        }
        lemma_same_filter(rest, a, b);
        assert(a(s[s.len() - 1]) == b(s[s.len() - 1]));
    }
}

} // verus!
