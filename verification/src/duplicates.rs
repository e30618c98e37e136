//! Rows that a table holds more than once.
use crate::database::DatabaseManager;
use crate::lists::{firsts, lemma_filter_distinct, lemma_firsts, lemma_same_filter};
use crate::signatures::{law_signature_tells_rows_apart, same_columns, same_row, signature, Cell};
use crate::text::{chars_of, lemma_strs_empty, lemma_strs_push, same, strs};
use vstd::hash_map::StringHashMap;
use vstd::prelude::*;
use vstd::utf8::encode_utf8;

verus! {

broadcast use {lemma_strs_push, lemma_strs_empty};

/// What a scan of a table found.
pub struct DuplicateScan {
    pub total_rows: usize,
    /// How many signatures occur more than once.
    pub duplicate_groups: usize,
    /// How many rows have one of those signatures.
    pub duplicate_rows: usize,
    /// Of the first groups, the summary of their first row, once for each of their rows.
    pub examples: Vec<Vec<String>>,
}

/// How many groups are shown.
pub const MAX_EXAMPLES: usize = 5;

/// How many bytes a character takes.
pub open spec fn width(c: char) -> int {
    let n = c as int;
    if n < 0x80 {
        1
    } else if n < 0x800 {
        2
    } else if n < 0x10000 {
        3
    } else {
        4
    }
}

/// The characters that fill exactly the first `n` bytes of a text, or `None` where
/// those bytes end inside a character or behind the text.
pub open spec fn byte_prefix(s: Seq<char>, n: int) -> Option<Seq<char>>
    decreases s.len(),
{
    if n == 0 {
        Some(Seq::empty())
    } else if s.len() == 0 || width(s[0]) > n {
        None
    } else {
        match byte_prefix(s.drop_first(), n - width(s[0])) {
            Some(rest) => Some(seq![s[0]] + rest),
            None => None,
        }
    }
}

/// The first eight bytes of a text, or all of it where it is shorter.
pub open spec fn short(s: Seq<char>) -> Seq<char> {
    if encode_utf8(s).len() >= 8 {
        byte_prefix(s, 8)->0
    } else {
        s
    }
}

/// Whether a text can be cut behind its first eight bytes.
pub open spec fn can_shorten(s: Seq<char>) -> bool {
    encode_utf8(s).len() >= 8 ==> byte_prefix(s, 8) is Some
}

fn char_width(c: char) -> (r: u32)
    ensures
        r == width(c),
{
    let n: u32 = c as u32;
    if n < 0x80 {
        1
    } else if n < 0x800 {
        2
    } else if n < 0x10000 {
        3
    } else {
        4
    }
}

fn shorten(s: &str) -> (r: String)
    requires
        can_shorten(s@),
    ensures
        r@ == short(s@),
{
    if s.as_bytes().len() < 8 {
        return s.to_owned();
    }
    let cs = chars_of(s);
    let mut out: String = String::new();
    let mut left: u32 = 8;
    let n: usize = cs.len();
    let mut i: usize = 0;
    proof {
        assert(cs@.skip(0) =~= cs@);
        assert(out@ + byte_prefix(cs@.skip(0), 8)->0 =~= byte_prefix(cs@, 8)->0);
    }
    while left > 0
        invariant
            i <= n,
            n == cs@.len(),
            left <= 8,
            byte_prefix(cs@.skip(i as int), left as int) is Some,
            out@ + byte_prefix(cs@.skip(i as int), left as int)->0 == byte_prefix(cs@, 8)->0,
        decreases left,
    {
        let ghost rest = cs@.skip(i as int);
        let ghost was = out@;
        assert(rest.len() > 0 && width(rest[0]) <= left);
        assert(rest.drop_first() =~= cs@.skip(i + 1));
        let c: char = cs[i];
        assert(c == rest[0]);
        left = left - char_width(c);
        out.push(c);
        proof {
            let tail = byte_prefix(cs@.skip(i + 1), left as int)->0;
            assert(was + (seq![c] + tail) =~= out@ + tail);
        }
        i += 1;
    }
    proof {
        assert(out@ + Seq::<char>::empty() =~= out@);
    }
    out
}

/// The text of a value that is text; `NULL` where it is absent.
pub open spec fn text_or_null(cell: Cell) -> Seq<char> {
    match cell {
        Cell::Utf8(Some(t)) => t@,
        _ => "NULL"@,
    }
}

/// Whether a row has what its table's summaries show.
pub open spec fn can_summarize(row: Seq<Cell>, table: Seq<char>) -> bool {
    if table == "functions"@ {
        &&& row.len() >= 3
        &&& row[0] is Utf8
        &&& row[1] is Utf8
        &&& row[2] is Utf8
        &&& row[2]->Utf8_0 is Some ==> can_shorten(row[2]->Utf8_0->0@)
    } else if table == "types"@ {
        row.len() >= 5 && row[0] is Utf8 && row[1] is Utf8 && row[4] is Utf8
    } else {
        row.len() >= 1
    }
}

/// A summary of a row for a reader.
pub open spec fn summary(row: Seq<Cell>, table: Seq<char>) -> Seq<char> {
    if table == "functions"@ {
        text_or_null(row[0]) + "() in "@ + text_or_null(row[1]) + " ("@ + (match row[2] {
            Cell::Utf8(Some(t)) => short(t@),
            _ => "NULL"@,
        }) + "...)"@
    } else if table == "types"@ {
        text_or_null(row[4]) + " "@ + text_or_null(row[0]) + " in "@ + text_or_null(row[1])
    } else {
        table + " row: "@ + (match row[0] {
            Cell::Utf8(_) => text_or_null(row[0]),
            _ => "..."@,
        })
    }
}

fn shown(cell: &Cell) -> (r: String)
    ensures
        r@ == text_or_null(*cell),
{
    match cell {
        Cell::Utf8(Some(t)) => t.clone(),
        _ => "NULL".to_owned(),
    }
}

impl DatabaseManager {
    /// A summary of a row for a reader.
    pub fn create_readable_row_summary(&self, row: &Vec<Cell>, table_name: &str) -> (r: String)
        requires
            can_summarize(row@, table_name@),
        ensures
            r@ == summary(row@, table_name@),
    {
        if same(table_name, "functions") {
            let mut out = shown(&row[0]);
            out.append("() in ");
            out.append(shown(&row[1]).as_str());
            out.append(" (");
            match &row[2] {
                Cell::Utf8(Some(t)) => out.append(shorten(t.as_str()).as_str()),
                _ => out.append("NULL"),
            }
            out.append("...)");
            out
        } else if same(table_name, "types") {
            let mut out = shown(&row[4]);
            out.append(" ");
            out.append(shown(&row[0]).as_str());
            out.append(" in ");
            out.append(shown(&row[1]).as_str());
            out
        } else {
            let mut out = table_name.to_owned();
            out.append(" row: ");
            match &row[0] {
                Cell::Utf8(_) => out.append(shown(&row[0]).as_str()),
                _ => out.append("..."),
            }
            out
        }
    }
}

/// The signatures of rows.
pub open spec fn signatures(rows: Seq<Vec<Cell>>) -> Seq<Seq<char>> {
    rows.map_values(|row: Vec<Cell>| signature(row@))
}

/// How often a text occurs in a list.
pub open spec fn occurrences(s: Seq<Seq<char>>, x: Seq<char>) -> nat
    decreases s.len(),
{
    if s.len() == 0 {
        0
    } else {
        occurrences(s.drop_last(), x) + if s.last() == x {
            1nat
        } else {
            0nat
        }
    }
}

/// Where a text that occurs in a list first occurs.
pub open spec fn first_index(s: Seq<Seq<char>>, x: Seq<char>) -> int
    decreases s.len(),
{
    if s.len() == 0 {
        0
    } else if s.drop_last().contains(x) {
        first_index(s.drop_last(), x)
    } else {
        s.len() - 1
    }
}

/// The texts that occur more than once, in the order of their first occurrence.
pub open spec fn repeated(s: Seq<Seq<char>>) -> Seq<Seq<char>> {
    firsts(s).filter(|x: Seq<char>| occurrences(s, x) > 1)
}

/// How often the texts of one list occur in another, taken together.
pub open spec fn total_occurrences(of: Seq<Seq<char>>, s: Seq<Seq<char>>) -> nat
    decreases of.len(),
{
    if of.len() == 0 {
        0
    } else {
        total_occurrences(of.drop_last(), s) + occurrences(s, of.last())
    }
}

/// An example group: the summary of its first row, once for each of its rows.
pub open spec fn example(rows: Seq<Vec<Cell>>, table: Seq<char>, x: Seq<char>) -> Seq<Seq<char>> {
    let s = signatures(rows);
    Seq::new(occurrences(s, x), |i: int| summary(rows[first_index(s, x)]@, table))
}

/// Whether a scan's result is right for a table's rows.
pub open spec fn is_scan(scan: DuplicateScan, rows: Seq<Vec<Cell>>, table: Seq<char>) -> bool {
    let s = signatures(rows);
    let twice = repeated(s);
    &&& scan.total_rows == rows.len()
    &&& scan.duplicate_groups == twice.len()
    &&& scan.duplicate_rows == total_occurrences(twice, s)
    &&& scan.examples@.len() == if twice.len() < MAX_EXAMPLES {
        twice.len()
    } else {
        MAX_EXAMPLES as nat
    }
    &&& forall|i: int|
        0 <= i < scan.examples@.len() ==> strs((#[trigger] scan.examples@[i])@) == example(
            rows,
            table,
            twice[i],
        )
}

proof fn lemma_occurrences_bound(s: Seq<Seq<char>>, x: Seq<char>)
    ensures
        occurrences(s, x) <= s.len(),
        occurrences(s, x) > 0 <==> s.contains(x),
    decreases s.len(),
{
    if s.len() > 0 {
        lemma_occurrences_bound(s.drop_last(), x);
        if s.drop_last().contains(x) {
            let k = choose|k: int| 0 <= k < s.drop_last().len() && s.drop_last()[k] == x;
            assert(s[k] == x);
        }
        if s.contains(x) && s.last() != x {
            let k = choose|k: int| 0 <= k < s.len() && s[k] == x;
            assert(s.drop_last()[k] == x);
        }
    }
}

proof fn lemma_first_index(s: Seq<Seq<char>>, x: Seq<char>)
    requires
        s.contains(x),
    ensures
        0 <= first_index(s, x) < s.len(),
        s[first_index(s, x)] == x,
        forall|j: int| 0 <= j < first_index(s, x) ==> #[trigger] s[j] != x,
    decreases s.len(),
{
    if s.drop_last().contains(x) {
        lemma_first_index(s.drop_last(), x);
        assert forall|j: int| 0 <= j < first_index(s, x) implies #[trigger] s[j] != x by {
            assert(s.drop_last()[j] == s[j]);
        }
    } else {
        let k = choose|k: int| 0 <= k < s.len() && s[k] == x;
        if k < s.len() - 1 {
            assert(s.drop_last()[k] == x);
        }
        assert forall|j: int| 0 <= j < first_index(s, x) implies #[trigger] s[j] != x by {
            assert(s.drop_last()[j] == s[j]);
        }
    }
}

/// Distinct texts of a list occur at most as often, taken together, as the list is long.
proof fn lemma_total_bound(of: Seq<Seq<char>>, s: Seq<Seq<char>>)
    requires
        of.no_duplicates(),
    ensures
        total_occurrences(of, s) <= s.len(),
    decreases s.len(),
{
    if s.len() == 0 {
        lemma_total_step(of, s);
    } else {
        lemma_total_bound(of, s.drop_last());
        lemma_total_step(of, s);
    }
}

/// The last text of a list adds at most one to what distinct texts occur together.
proof fn lemma_total_step(of: Seq<Seq<char>>, s: Seq<Seq<char>>)
    requires
        of.no_duplicates(),
    ensures
        s.len() == 0 ==> total_occurrences(of, s) == 0,
        s.len() > 0 ==> total_occurrences(of, s) == total_occurrences(of, s.drop_last())
            + if of.contains(s.last()) {
            1int
        } else {
            0int
        },
    decreases of.len(),
{
    if of.len() > 0 {
        let rest = of.drop_last();
        assert(rest.no_duplicates()) by {
            assert forall|i: int, j: int| 0 <= i < rest.len() && 0 <= j < rest.len() && i != j implies rest[i]
                != rest[j] by {
                assert(of[i] != of[j]);
            }
        }
        lemma_total_step(rest, s);
        if s.len() > 0 {
            let x = s.last();
            if rest.contains(x) {
                let k = choose|k: int| 0 <= k < rest.len() && rest[k] == x;
                assert(of[k] == x);
                assert(of[k] != of[of.len() - 1]);
            }
            if of.last() == x {
                assert(of[of.len() - 1] == x);
            }
            if of.contains(x) && of.last() != x {
                let k = choose|k: int| 0 <= k < of.len() && of[k] == x;
                assert(rest[k] == x);
            }
        }
    }
}

/// What is known of one signature while a table is scanned.
struct Group {
    signature: String,
    count: usize,
    summary: String,
}

spec fn is_group(g: Group, rows: Seq<Vec<Cell>>, table: Seq<char>, n: int) -> bool {
    let s = signatures(rows).take(n);
    &&& g.count == occurrences(s, g.signature@)
    &&& g.summary@ == summary(rows[first_index(s, g.signature@)]@, table)
}

fn copies(text: &String, n: usize) -> (r: Vec<String>)
    ensures
        strs(r@) == Seq::new(n as nat, |i: int| text@),
{
    let mut out: Vec<String> = Vec::new();
    let mut i: usize = 0;
    while i < n
        invariant
            i <= n,
            strs(out@) == Seq::new(i as nat, |i: int| text@),
        decreases n - i,
    {
        out.push(text.clone());
        proof {
            assert(Seq::new((i + 1) as nat, |i: int| text@) =~= Seq::new(
                i as nat,
                |i: int| text@,
            ).push(text@));
        }
        i += 1;
    }
    out
}

impl DatabaseManager {
    fn group_rows(&self, table_name: &str, rows: &Vec<Vec<Cell>>) -> (r: Vec<Group>)
        requires
            forall|i: int|
                0 <= i < rows@.len() ==> can_summarize((#[trigger] rows@[i])@, table_name@),
        ensures
            r@.map_values(|g: Group| g.signature@) == firsts(signatures(rows@)),
            forall|j: int|
                0 <= j < r@.len() ==> is_group(
                    #[trigger] r@[j],
                    rows@,
                    table_name@,
                    rows@.len() as int,
                ),
    {
        let mut groups: Vec<Group> = Vec::new();
        let mut index: StringHashMap<usize> = StringHashMap::new();
        let ghost all = signatures(rows@);
        let n: usize = rows.len();
        let mut i: usize = 0;
        proof {
            assert(all.take(0) =~= Seq::empty());
            assert(groups@.map_values(|g: Group| g.signature@) =~= firsts(all.take(0)));
        }
        while i < n
            invariant
                i <= n,
                n == rows@.len(),
                all == signatures(rows@),
                forall|i: int|
                    0 <= i < rows@.len() ==> can_summarize((#[trigger] rows@[i])@, table_name@),
                groups@.map_values(|g: Group| g.signature@) == firsts(all.take(i as int)),
                forall|k: Seq<char>|
                    index@.contains_key(k) <==> #[trigger] firsts(all.take(i as int)).contains(k),
                forall|k: Seq<char>| #[trigger]
                    index@.contains_key(k) ==> index@[k] < groups@.len()
                        && groups@[index@[k] as int].signature@ == k,
                forall|j: int|
                    0 <= j < groups@.len() ==> is_group(
                        #[trigger] groups@[j],
                        rows@,
                        table_name@,
                        i as int,
                    ),
            decreases n - i,
        {
            let sig = self.create_row_signature(&rows[i]);
            let ghost before = all.take(i as int);
            let ghost now = all.take(i + 1);
            let ghost x = sig@;
            let ghost had = groups@;
            proof {
                assert(now.drop_last() =~= before);
                assert(now.last() == x);
                lemma_firsts(before);
                lemma_firsts(now);
            }
            match index.get(sig.as_str()) {
                Some(at) => {
                    let at: usize = *at;
                    proof {
                        lemma_occurrences_bound(before, x);
                        assert(is_group(had[at as int], rows@, table_name@, i as int));
                    }
                    groups[at].count = groups[at].count + 1;
                    proof {
                        assert(groups@.map_values(|g: Group| g.signature@) =~= had.map_values(
                            |g: Group| g.signature@,
                        ));
                        assert forall|j: int| 0 <= j < groups@.len() implies is_group(
                            #[trigger] groups@[j],
                            rows@,
                            table_name@,
                            i + 1,
                        ) by {
                            assert(is_group(had[j], rows@, table_name@, i as int));
                            let keys = groups@.map_values(|g: Group| g.signature@);
                            assert(keys[j] == groups@[j].signature@);
                            assert(keys[at as int] == x);
                            assert(firsts(before).contains(keys[j]));
                            if j != at {
                                assert(keys[j] != x);
                            }
                        }
                    }
                },
                None => {
                    let text = self.create_readable_row_summary(&rows[i], table_name);
                    let at: usize = groups.len();
                    groups.push(Group { signature: sig.clone(), count: 1, summary: text });
                    index.insert(sig, at);
                    proof {
                        assert(groups@.map_values(|g: Group| g.signature@) =~= had.map_values(
                            |g: Group| g.signature@,
                        ).push(x));
                        lemma_occurrences_bound(before, x);
                        assert(!firsts(before).contains(x));
                        assert forall|j: int| 0 <= j < groups@.len() implies is_group(
                            #[trigger] groups@[j],
                            rows@,
                            table_name@,
                            i + 1,
                        ) by {
                            if j < had.len() {
                                assert(is_group(had[j], rows@, table_name@, i as int));
                                let keys = had.map_values(|g: Group| g.signature@);
                                assert(keys[j] == groups@[j].signature@);
                                assert(firsts(before).contains(keys[j]));
                            }
                        }
                        assert forall|k: Seq<char>|
                            index@.contains_key(k) <==> #[trigger] firsts(now).contains(k) by {
                            if firsts(before).contains(k) {
                                let m = choose|m: int|
                                    0 <= m < firsts(before).len() && firsts(before)[m] == k;
                                assert(firsts(now)[m] == k);
                            }
                            if k == x {
                                assert(firsts(now)[firsts(before).len() as int] == x);
                            }
                        }
                    }
                },
            }
            i += 1;
        }
        proof {
            assert(all.take(n as int) =~= all);
        }
        groups
    }

    /// Counts the rows that a table holds more than once. Rows are alike when their
    /// signatures are; the examples are the groups that come first.
    pub fn scan_table_for_duplicates(&self, table_name: &str, rows: &Vec<Vec<Cell>>) -> (r:
        DuplicateScan)
        requires
            forall|i: int|
                0 <= i < rows@.len() ==> can_summarize((#[trigger] rows@[i])@, table_name@),
        ensures
            is_scan(r, rows@, table_name@),
    {
        let total_rows: usize = rows.len();
        let groups = self.group_rows(table_name, rows);
        let ghost all = signatures(rows@);
        let ghost keys = firsts(all);
        let ghost often = |x: Seq<char>| occurrences(all, x) > 1;
        let n: usize = groups.len();
        let mut duplicate_groups: usize = 0;
        let mut duplicate_rows: usize = 0;
        let mut examples: Vec<Vec<String>> = Vec::new();
        let mut i: usize = 0;
        proof {
            reveal(Seq::filter);
            lemma_firsts(all);
            assert(all.take(rows@.len() as int) =~= all);
            assert(groups@.map_values(|g: Group| g.signature@).len() == groups@.len());
        }
        while i < n
            invariant
                i <= n,
                n == groups@.len(),
                n == keys.len(),
                all == signatures(rows@),
                keys == firsts(all),
                keys.no_duplicates(),
                often == (|x: Seq<char>| occurrences(all, x) > 1),
                groups@.map_values(|g: Group| g.signature@) == keys,
                all.take(rows@.len() as int) == all,
                forall|j: int|
                    0 <= j < groups@.len() ==> is_group(
                        #[trigger] groups@[j],
                        rows@,
                        table_name@,
                        rows@.len() as int,
                    ),
                duplicate_groups == keys.take(i as int).filter(often).len(),
                duplicate_groups <= i,
                duplicate_rows == total_occurrences(keys.take(i as int).filter(often), all),
                examples@.len() == if duplicate_groups < MAX_EXAMPLES {
                    duplicate_groups as nat
                } else {
                    MAX_EXAMPLES as nat
                },
                forall|j: int|
                    0 <= j < examples@.len() ==> strs((#[trigger] examples@[j])@) == example(
                        rows@,
                        table_name@,
                        keys.take(i as int).filter(often)[j],
                    ),
                total_rows == rows@.len(),
            decreases n - i,
        {
            let g = &groups[i];
            let ghost before = keys.take(i as int).filter(often);
            let ghost now = keys.take(i + 1).filter(often);
            proof {
                reveal(Seq::filter);
                assert(keys.take(i + 1).drop_last() =~= keys.take(i as int));
                assert(groups@.map_values(|g: Group| g.signature@)[i as int]
                    == groups@[i as int].signature@);
                assert(keys.take(i + 1).last() == g.signature@);
                assert(is_group(groups@[i as int], rows@, table_name@, rows@.len() as int));
            }
            if g.count > 1 {
                proof {
                    assert(now =~= before.push(g.signature@));
                    assert(now.drop_last() =~= before);
                    lemma_filter_distinct(keys.take(i + 1), often);
                    lemma_total_bound(now, all);
                }
                duplicate_groups = duplicate_groups + 1;
                duplicate_rows = duplicate_rows + g.count;
                if examples.len() < MAX_EXAMPLES {
                    examples.push(copies(&g.summary, g.count));
                    proof {
                        assert(strs(examples@.last()@) =~= example(
                            rows@,
                            table_name@,
                            g.signature@,
                        ));
                    }
                }
            }
            i += 1;
        }
        proof {
            assert(keys.take(n as int) =~= keys);
        }
        DuplicateScan { total_rows, duplicate_groups, duplicate_rows, examples }
    }
}

/// A table has no duplicate groups exactly where no two of its rows have one
/// signature, and then no duplicate rows.
pub proof fn law_no_duplicates(rows: Seq<Vec<Cell>>)
    ensures
        repeated(signatures(rows)).len() == 0 <==> signatures(rows).no_duplicates(),
        repeated(signatures(rows)).len() == 0 ==> total_occurrences(
            repeated(signatures(rows)),
            signatures(rows),
        ) == 0,
{
    let s = signatures(rows);
    let often = |x: Seq<char>| occurrences(s, x) > 1;
    lemma_firsts(s);
    if repeated(s).len() == 0 {
        assert forall|i: int, j: int| 0 <= i < s.len() && 0 <= j < s.len() && i != j implies s[i]
            != s[j] by {
            if s[i] == s[j] {
                lemma_twice(s, i, j);
                assert(s.contains(s[i]));
                assert(firsts(s).contains(s[i]));
                let k = choose|k: int| 0 <= k < firsts(s).len() && firsts(s)[k] == s[i];
                firsts(s).lemma_filter_contains(often, k);
                assert(repeated(s).contains(s[i]));
            }
        }
    }
    if s.no_duplicates() && repeated(s).len() > 0 {
        let x = repeated(s)[0];
        firsts(s).lemma_filter_pred(often, 0);
        lemma_once(s, x);
    }
}

/// Whether all rows can stand in one table.
pub open spec fn one_table(rows: Seq<Vec<Cell>>) -> bool {
    forall|i: int, j: int|
        0 <= i < rows.len() && 0 <= j < rows.len() ==> same_columns(
            (#[trigger] rows[i])@,
            (#[trigger] rows[j])@,
        )
}

/// The rows of a table are counted as duplicates where they are the same in every column:
/// there is no duplicate exactly where no two rows are the same, and how often the
/// signature of a row occurs is how many rows are the same as it.
pub proof fn law_duplicates_are_equal_rows(rows: Seq<Vec<Cell>>)
    requires
        one_table(rows),
    ensures
        repeated(signatures(rows)).len() == 0 <==> forall|i: int, j: int|
            0 <= i < j < rows.len() ==> !same_row((#[trigger] rows[i])@, (#[trigger] rows[j])@),
        forall|k: int|
            0 <= k < rows.len() ==> occurrences(signatures(rows), signature((#[trigger] rows[k])@))
                == equal_rows(rows, rows[k]@),
{
    let s = signatures(rows);
    law_no_duplicates(rows);
    if s.no_duplicates() {
        assert forall|i: int, j: int| 0 <= i < j < rows.len() implies !same_row(
            (#[trigger] rows[i])@,
            (#[trigger] rows[j])@,
        ) by {
            assert(s[i] != s[j]);
            law_signature_tells_rows_apart(rows[i]@, rows[j]@);
        }
    }
    if forall|i: int, j: int|
        0 <= i < j < rows.len() ==> !same_row((#[trigger] rows[i])@, (#[trigger] rows[j])@) {
        assert forall|i: int, j: int| 0 <= i < s.len() && 0 <= j < s.len() && i != j implies s[i]
            != s[j] by {
            law_signature_tells_rows_apart(rows[i]@, rows[j]@);
            law_signature_tells_rows_apart(rows[j]@, rows[i]@);
            assert(s[i] == signature(rows[i]@) && s[j] == signature(rows[j]@));
            if i < j {
                assert(!same_row(rows[i]@, rows[j]@));
            } else {
                assert(!same_row(rows[j]@, rows[i]@));
            }
        }
    }
    assert forall|k: int| 0 <= k < rows.len() implies occurrences(
        s,
        signature((#[trigger] rows[k])@),
    ) == equal_rows(rows, rows[k]@) by {
        lemma_equal_rows(rows, rows[k]@);
    }
}

/// How many rows are the same as one.
pub open spec fn equal_rows(rows: Seq<Vec<Cell>>, row: Seq<Cell>) -> nat
    decreases rows.len(),
{
    if rows.len() == 0 {
        0
    } else {
        equal_rows(rows.drop_last(), row) + if same_row(rows.last()@, row) {
            1nat
        } else {
            0nat
        }
    }
}

proof fn lemma_equal_rows(rows: Seq<Vec<Cell>>, row: Seq<Cell>)
    requires
        forall|i: int| 0 <= i < rows.len() ==> same_columns((#[trigger] rows[i])@, row),
    ensures
        occurrences(signatures(rows), signature(row)) == equal_rows(rows, row),
    decreases rows.len(),
{
    if rows.len() > 0 {
        let rest = rows.drop_last();
        assert forall|i: int| 0 <= i < rest.len() implies same_columns(
            (#[trigger] rest[i])@,
            row,
        ) by {
            assert(rest[i] == rows[i]);
        }
        lemma_equal_rows(rest, row);
        assert(signatures(rows).drop_last() =~= signatures(rest));
        assert(same_columns(rows[rows.len() - 1]@, row));
        law_signature_tells_rows_apart(rows.last()@, row);
    }
}

proof fn lemma_twice(s: Seq<Seq<char>>, i: int, j: int)
    requires
        0 <= i < s.len(),
        0 <= j < s.len(),
        i != j,
        s[i] == s[j],
    ensures
        occurrences(s, s[i]) > 1,
    decreases s.len(),
{
    let rest = s.drop_last();
    let x = s[i];
    lemma_occurrences_bound(rest, x);
    if i < rest.len() && j < rest.len() {
        lemma_twice(rest, i, j);
    } else if i < rest.len() {
        assert(rest[i] == x);
    } else {
        assert(rest[j] == x);
    }
}

proof fn lemma_once(s: Seq<Seq<char>>, x: Seq<char>)
    requires
        s.no_duplicates(),
    ensures
        occurrences(s, x) <= 1,
    decreases s.len(),
{
    if s.len() > 0 {
        let rest = s.drop_last();
        assert(rest.no_duplicates()) by {
            assert forall|i: int, j: int|
                0 <= i < rest.len() && 0 <= j < rest.len() && i != j implies rest[i] != rest[j] by {
                assert(s[i] != s[j]);
            }
        }
        lemma_once(rest, x);
        lemma_occurrences_bound(rest, x);
        if s.last() == x && rest.contains(x) {
            let k = choose|k: int| 0 <= k < rest.len() && rest[k] == x;
            assert(s[k] != s[s.len() - 1]);
        }
    }
}

/// How often a text occurs in a list is how many items of the list are that text.
pub proof fn law_occurrences(s: Seq<Seq<char>>, x: Seq<char>)
    ensures
        occurrences(s, x) == s.filter(|y: Seq<char>| y == x).len(),
    decreases s.len(),
{
    reveal(Seq::filter);
    if s.len() > 0 {
        law_occurrences(s.drop_last(), x);
    }
}

/// The texts that occur more than once are listed once each: those that stand at two places.
pub proof fn law_repeated(s: Seq<Seq<char>>, x: Seq<char>)
    ensures
        repeated(s).no_duplicates(),
        repeated(s).contains(x) <==> exists|i: int, j: int|
            0 <= i < j < s.len() && #[trigger] s[i] == x && #[trigger] s[j] == x,
{
    let often = |x: Seq<char>| occurrences(s, x) > 1;
    lemma_firsts(s);
    lemma_filter_distinct(firsts(s), often);
    lemma_occurrences_bound(s, x);
    if exists|i: int, j: int| 0 <= i < j < s.len() && #[trigger] s[i] == x && #[trigger] s[j] == x {
        let (i, j) = choose|i: int, j: int|
            0 <= i < j < s.len() && #[trigger] s[i] == x && #[trigger] s[j] == x;
        lemma_twice(s, i, j);
    }
    if occurrences(s, x) > 1 {
        lemma_two_places(s, x);
    }
}

proof fn lemma_two_places(s: Seq<Seq<char>>, x: Seq<char>)
    requires
        occurrences(s, x) > 1,
    ensures
        exists|i: int, j: int|
            0 <= i < j < s.len() && #[trigger] s[i] == x && #[trigger] s[j] == x,
    decreases s.len(),
{
    let rest = s.drop_last();
    if s.last() == x {
        lemma_occurrences_bound(rest, x);
        let i = choose|i: int| 0 <= i < rest.len() && rest[i] == x;
        assert(s[i] == x && s[s.len() - 1] == x);
    } else {
        lemma_two_places(rest, x);
        let (i, j) = choose|i: int, j: int|
            0 <= i < j < rest.len() && #[trigger] rest[i] == x && #[trigger] rest[j] == x;
        assert(s[i] == x && s[j] == x);
    }
}

/// The rows that are counted as duplicates are those whose signature another row has too, each
/// counted once.
pub proof fn law_duplicate_rows(s: Seq<Seq<char>>)
    ensures
        total_occurrences(repeated(s), s) == s.filter(|x: Seq<char>| repeated(s).contains(x)).len(),
{
    law_repeated(s, Seq::empty());
    lemma_total_counts(repeated(s), s);
}

proof fn lemma_total_counts(of: Seq<Seq<char>>, s: Seq<Seq<char>>)
    requires
        of.no_duplicates(),
    ensures
        total_occurrences(of, s) == s.filter(|x: Seq<char>| of.contains(x)).len(),
    decreases s.len(),
{
    reveal(Seq::filter);
    lemma_total_step(of, s);
    if s.len() > 0 {
        lemma_total_counts(of, s.drop_last());
    }
}

/// What a scan tells: how many rows there are, how many signatures more than one row has, how
/// many rows have one of those, and of the first five of these signatures the summary of the
/// first row that has it, as often as rows have it.
pub proof fn law_scan(scan: DuplicateScan, rows: Seq<Vec<Cell>>, table: Seq<char>, i: int)
    requires
        is_scan(scan, rows, table),
    ensures
        scan.total_rows == rows.len(),
        scan.duplicate_groups == repeated(signatures(rows)).len(),
        scan.duplicate_rows == signatures(rows).filter(
            |x: Seq<char>| repeated(signatures(rows)).contains(x),
        ).len(),
        scan.duplicate_groups <= 5 ==> scan.examples@.len() == scan.duplicate_groups,
        scan.duplicate_groups > 5 ==> scan.examples@.len() == 5,
        0 <= i < scan.examples@.len() ==> {
            let x = repeated(signatures(rows))[i];
            let first = first_index(signatures(rows), x);
            &&& scan.examples@[i]@.len() == occurrences(signatures(rows), x)
            &&& forall|k: int|
                0 <= k < scan.examples@[i]@.len() ==> (#[trigger] scan.examples@[i]@[k])@ == summary(
                    rows[first]@,
                    table,
                )
        },
{
    let s = signatures(rows);
    law_duplicate_rows(s);
    if 0 <= i < scan.examples@.len() {
        let x = repeated(s)[i];
        assert(strs(scan.examples@[i]@) == example(rows, table, x));
        assert(scan.examples@[i]@.len() == strs(scan.examples@[i]@).len());
        assert forall|k: int| 0 <= k < scan.examples@[i]@.len() implies (
        #[trigger] scan.examples@[i]@[k])@ == summary(rows[first_index(s, x)]@, table) by {
            assert(strs(scan.examples@[i]@)[k] == scan.examples@[i]@[k]@);
        }
    }
}

/// The summary of a row: of a function its name, its file and the start of its contents' hash;
/// of a type its kind, its name and its file; of any other row the table and its first value,
/// where that is text.
pub proof fn law_summary(row: Seq<Cell>, table: Seq<char>)
    ensures
        table == "functions"@ && row.len() >= 3 && row[0] is Utf8 && row[1] is Utf8 && (row[2]
            is Utf8 && row[2]->Utf8_0 is Some) ==> summary(row, table) == text_or_null(row[0])
            + "() in "@ + text_or_null(row[1]) + " ("@ + short(row[2]->Utf8_0->0@) + "...)"@,
        table == "functions"@ && row.len() >= 3 && row[2] is Utf8 && row[2]->Utf8_0 is None ==> summary(
            row,
            table,
        ) == text_or_null(row[0]) + "() in "@ + text_or_null(row[1]) + " ("@ + "NULL"@ + "...)"@,
        table == "types"@ && row.len() >= 5 ==> summary(row, table) == text_or_null(row[4]) + " "@
            + text_or_null(row[0]) + " in "@ + text_or_null(row[1]),
        table != "functions"@ && table != "types"@ && row.len() >= 1 && row[0] is Utf8 ==> summary(
            row,
            table,
        ) == table + " row: "@ + text_or_null(row[0]),
        table != "functions"@ && table != "types"@ && row.len() >= 1 && !(row[0] is Utf8) ==> summary(
            row,
            table,
        ) == table + " row: "@ + "..."@,
        row.len() > 0 && row[0] is Utf8 && row[0]->Utf8_0 is Some ==> text_or_null(row[0])
            == row[0]->Utf8_0->0@,
        row.len() > 0 && row[0] is Utf8 && row[0]->Utf8_0 is None ==> text_or_null(row[0]) == "NULL"@,
{
    reveal_strlit("functions");
    reveal_strlit("types");
    assert("functions"@.len() != "types"@.len());
}

/// What a text is cut to: itself where it has fewer than eight bytes, and else its first
/// characters, as many as fill eight bytes.
pub proof fn law_short(s: Seq<char>)
    requires
        can_shorten(s),
    ensures
        encode_utf8(s).len() < 8 ==> short(s) == s,
        encode_utf8(s).len() >= 8 ==> short(s).len() <= s.len() && short(s) == s.take(
            short(s).len() as int,
        ) && total_width(short(s)) == 8,
{
    if encode_utf8(s).len() >= 8 {
        lemma_byte_prefix(s, 8);
    }
}

/// How many bytes the characters of a text take.
pub open spec fn total_width(s: Seq<char>) -> int
    decreases s.len(),
{
    if s.len() == 0 {
        0
    } else {
        total_width(s.drop_last()) + if (s.last() as int) < 0x80 {
            1int
        } else if (s.last() as int) < 0x800 {
            2
        } else if (s.last() as int) < 0x10000 {
            3
        } else {
            4
        }
    }
}

proof fn lemma_byte_prefix(s: Seq<char>, n: int)
    requires
        byte_prefix(s, n) is Some,
    ensures
        byte_prefix(s, n)->0.len() <= s.len(),
        byte_prefix(s, n)->0 == s.take(byte_prefix(s, n)->0.len() as int),
        total_width(byte_prefix(s, n)->0) == n,
    decreases s.len(),
{
    let p = byte_prefix(s, n)->0;
    if n == 0 {
        assert(s.take(0) =~= Seq::<char>::empty());
    } else {
        let t = s.drop_first();
        let q = byte_prefix(t, n - width(s[0]))->0;
        lemma_byte_prefix(t, n - width(s[0]));
        assert(p == seq![s[0]] + q);
        assert(p =~= s.take(p.len() as int));
        lemma_total_width_first(s[0], q);
    }
}

proof fn lemma_total_width_first(c: char, s: Seq<char>)
    ensures
        total_width(seq![c] + s) == width(c) + total_width(s),
    decreases s.len(),
{
    let all = seq![c] + s;
    if s.len() == 0 {
        assert(all.drop_last() =~= Seq::<char>::empty());
        assert(total_width(Seq::<char>::empty()) == 0);
    } else {
        lemma_total_width_first(c, s.drop_last());
        assert(all.drop_last() =~= seq![c] + s.drop_last());
    }
}

/// The signatures of rows are those of each row, in their order.
pub proof fn law_signatures(rows: Seq<Vec<Cell>>, i: int)
    ensures
        signatures(rows).len() == rows.len(),
        0 <= i < rows.len() ==> signatures(rows)[i] == signature(rows[i]@),
{
}

/// The texts that occur more than once come in the order in which they first occur.
pub proof fn law_repeated_in_order(s: Seq<Seq<char>>)
    ensures
        repeated(s) == firsts(s).filter(|x: Seq<char>| repeated(s).contains(x)),
{
    let all = firsts(s);
    let often = |x: Seq<char>| occurrences(s, x) > 1;
    let listed = |x: Seq<char>| repeated(s).contains(x);
    lemma_firsts(s);
    lemma_filter_distinct(all, often);
    assert forall|i: int| 0 <= i < all.len() implies often(#[trigger] all[i]) == listed(all[i]) by {
        assert(all.contains(all[i]));
    }
    lemma_same_filter(all, often, listed);
}

} // verus!
