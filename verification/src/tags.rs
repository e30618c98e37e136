//! Tags of commit messages: lines such as `Signed-off-by: name`.
use crate::text::{
    chars_of, find_char, letter_or_digit, upper_case, lemma_position, lines, lines_of, position,
    same, strs, trim, trim_range, trimmed,
};
use vstd::prelude::*;

verus! {

/// The values given for each name, in the order in which they came.
pub struct TagMap {
    pub entries: Vec<(String, Vec<String>)>,
}

/// What a list of entries maps to what; of entries with one name the last counts.
pub open spec fn entries_map(entries: Seq<(String, Vec<String>)>) -> Map<Seq<char>, Seq<Seq<char>>>
    decreases entries.len(),
{
    if entries.len() == 0 {
        Map::empty()
    } else {
        entries_map(entries.drop_last()).insert(entries.last().0@, strs(entries.last().1@))
    }
}

/// Whether no two entries have one name.
pub open spec fn distinct_names(entries: Seq<(String, Vec<String>)>) -> bool {
    forall|i: int, j: int|
        0 <= i < j < entries.len() ==> (#[trigger] entries[i]).0@ != (#[trigger] entries[j]).0@
}

impl View for TagMap {
    type V = Map<Seq<char>, Seq<Seq<char>>>;

    open spec fn view(&self) -> Map<Seq<char>, Seq<Seq<char>>> {
        entries_map(self.entries@)
    }
}

/// Every name that is mapped stands in an entry, and every entry's name is mapped.
proof fn lemma_entries_names(entries: Seq<(String, Vec<String>)>)
    ensures
        forall|k: Seq<char>| #[trigger]
            entries_map(entries).contains_key(k) <==> exists|i: int|
                0 <= i < entries.len() && (#[trigger] entries[i]).0@ == k,
    decreases entries.len(),
{
    if entries.len() > 0 {
        let rest = entries.drop_last();
        lemma_entries_names(rest);
        assert forall|k: Seq<char>| #[trigger]
            entries_map(entries).contains_key(k) <==> exists|i: int|
                0 <= i < entries.len() && (#[trigger] entries[i]).0@ == k by {
            if entries_map(entries).contains_key(k) {
                if k == entries.last().0@ {
                    assert(entries[entries.len() - 1].0@ == k);
                } else {
                    assert(entries_map(rest).contains_key(k));
                    let i = choose|i: int| 0 <= i < rest.len() && (#[trigger] rest[i]).0@ == k;
                    assert(entries[i].0@ == k);
                }
            }
            if exists|i: int| 0 <= i < entries.len() && (#[trigger] entries[i]).0@ == k {
                let i = choose|i: int| 0 <= i < entries.len() && (#[trigger] entries[i]).0@ == k;
                if i < rest.len() {
                    assert(rest[i].0@ == k);
                    assert(entries_map(rest).contains_key(k));
                }
            }
        }
    }
}

/// With distinct names each entry is what its name maps to.
proof fn lemma_entries_values(entries: Seq<(String, Vec<String>)>)
    requires
        distinct_names(entries),
    ensures
        forall|i: int|
            0 <= i < entries.len() ==> entries_map(entries)[(#[trigger] entries[i]).0@] == strs(
                entries[i].1@,
            ),
    decreases entries.len(),
{
    if entries.len() > 0 {
        let rest = entries.drop_last();
        assert(distinct_names(rest)) by {
            assert forall|i: int, j: int| 0 <= i < j < rest.len() implies (#[trigger] rest[i]).0@
                != (#[trigger] rest[j]).0@ by {
                assert(entries[i].0@ != entries[j].0@);
            }
        }
        lemma_entries_values(rest);
        assert forall|i: int| 0 <= i < entries.len() implies entries_map(entries)[(
        #[trigger] entries[i]).0@] == strs(entries[i].1@) by {
            if i < rest.len() {
                assert(rest[i] == entries[i]);
                assert(entries[i].0@ != entries[entries.len() - 1].0@);
            }
        }
    }
}

/// The values of a name, none where it is not mapped.
pub open spec fn values(m: Map<Seq<char>, Seq<Seq<char>>>, name: Seq<char>) -> Seq<Seq<char>> {
    if m.contains_key(name) {
        m[name]
    } else {
        Seq::empty()
    }
}

/// A map with one more value for a name, behind those it has.
pub open spec fn with_value(
    m: Map<Seq<char>, Seq<Seq<char>>>,
    name: Seq<char>,
    value: Seq<char>,
) -> Map<Seq<char>, Seq<Seq<char>>> {
    m.insert(name, values(m, name).push(value))
}

impl TagMap {
    /// Each name stands once.
    pub open spec fn wf(self) -> bool {
        distinct_names(self.entries@)
    }

    /// The map without names.
    pub fn new() -> (r: TagMap)
        ensures
            r.wf(),
            r@ == Map::<Seq<char>, Seq<Seq<char>>>::empty(),
    {
        TagMap { entries: Vec::new() }
    }

    fn entry_of(&self, name: &str) -> (r: Option<usize>)
        requires
            self.wf(),
        ensures
            match r {
                Some(i) => {
                    &&& i < self.entries@.len()
                    &&& self.entries@[i as int].0@ == name@
                    &&& self@.contains_key(name@)
                    &&& self@[name@] == strs(self.entries@[i as int].1@)
                },
                None => {
                    &&& !self@.contains_key(name@)
                    &&& forall|i: int|
                        0 <= i < self.entries@.len() ==> (#[trigger] self.entries@[i]).0@ != name@
                },
            },
    {
        proof {
            lemma_entries_names(self.entries@);
            lemma_entries_values(self.entries@);
        }
        let mut i: usize = 0;
        while i < self.entries.len()
            invariant
                i <= self.entries@.len(),
                forall|j: int| 0 <= j < i ==> (#[trigger] self.entries@[j]).0@ != name@,
                forall|k: Seq<char>| #[trigger]
                    entries_map(self.entries@).contains_key(k) <==> exists|i: int|
                        0 <= i < self.entries@.len() && (#[trigger] self.entries@[i]).0@ == k,
                forall|i: int|
                    0 <= i < self.entries@.len() ==> entries_map(self.entries@)[(
                    #[trigger] self.entries@[i]).0@] == strs(self.entries@[i].1@),
            decreases self.entries@.len() - i,
        {
            if same(self.entries[i].0.as_str(), name) {
                return Some(i);
            }
            i += 1;
        }
        None
    }

    /// The values of a name, or `None` where it has none.
    pub fn get(&self, name: &str) -> (r: Option<&Vec<String>>)
        requires
            self.wf(),
        ensures
            match r {
                Some(v) => self@.contains_key(name@) && strs(v@) == self@[name@],
                None => !self@.contains_key(name@),
            },
    {
        match self.entry_of(name) {
            Some(i) => Some(&self.entries[i].1),
            None => None,
        }
    }

    /// Adds a value for a name, behind those it has.
    pub fn add_value(&mut self, name: String, value: String)
        requires
            old(self).wf(),
        ensures
            final(self).wf(),
            final(self)@ == with_value(old(self)@, name@, value@),
    {
        let ghost before = self.entries@;
        let ghost key = name@;
        let ghost val = value@;
        match self.entry_of(name.as_str()) {
            Some(i) => {
                self.entries[i].1.push(value);
                proof {
                    let after = self.entries@;
                    assert(after[i as int].1@ == before[i as int].1@.push(value));
                    assert(strs(after[i as int].1@) =~= strs(before[i as int].1@).push(val));
                    assert forall|a: int, b: int| 0 <= a < b < after.len() implies (
                    #[trigger] after[a]).0@ != (#[trigger] after[b]).0@ by {
                        assert(before[a].0@ != before[b].0@);
                    }
                    lemma_entries_names(before);
                    lemma_entries_values(before);
                    lemma_entries_names(after);
                    lemma_entries_values(after);
                    let want = with_value(entries_map(before), key, val);
                    assert forall|k: Seq<char>| #[trigger]
                        entries_map(after).contains_key(k) == want.contains_key(k) by {
                        if entries_map(after).contains_key(k) {
                            let j = choose|j: int| 0 <= j < after.len() && (#[trigger] after[j]).0@ == k;
                            assert(before[j].0@ == k);
                        }
                        if want.contains_key(k) {
                            if k == key {
                                assert(after[i as int].0@ == k);
                            } else {
                                let j = choose|j: int|
                                    0 <= j < before.len() && (#[trigger] before[j]).0@ == k;
                                assert(after[j].0@ == k);
                            }
                        }
                    }
                    assert forall|k: Seq<char>| #[trigger]
                        entries_map(after).contains_key(k) implies entries_map(after)[k]
                        == want[k] by {
                        let j = choose|j: int| 0 <= j < after.len() && (#[trigger] after[j]).0@ == k;
                        assert(before[j].0@ == k);
                    }
                    assert(entries_map(after) =~= want);
                }
            },
            None => {
                let mut list: Vec<String> = Vec::new();
                list.push(value);
                self.entries.push((name, list));
                proof {
                    let after = self.entries@;
                    assert(after.drop_last() =~= before);
                    assert(strs(list@) =~= Seq::<Seq<char>>::empty().push(val));
                }
            },
        }
    }
}

/// Whether a text can be the name of a tag: letters, digits and dashes only, with
/// an upper case letter among them.
pub open spec fn is_tag_name(name: Seq<char>) -> bool {
    &&& forall|i: int| 0 <= i < name.len() ==> letter_or_digit(#[trigger] name[i]) || name[i] == '-'
    &&& exists|i: int| 0 <= i < name.len() && upper_case(#[trigger] name[i])
}

/// The tag that a line gives, name and value: what stands before the first colon,
/// and what stands behind it, without the spaces round them.
pub open spec fn tag_of_line(line: Seq<char>) -> Option<(Seq<char>, Seq<char>)> {
    let l = trimmed(line);
    let at = position(l, ':');
    if at >= l.len() {
        None
    } else {
        let name = trimmed(l.subrange(0, at));
        let value = trimmed(l.subrange(at + 1, l.len() as int));
        if is_tag_name(name) && value.len() > 0 {
            Some((name, value))
        } else {
            None
        }
    }
}

/// The tags that lines give, each name with its values in order.
pub open spec fn tags_of_lines(ls: Seq<Seq<char>>) -> Map<Seq<char>, Seq<Seq<char>>>
    decreases ls.len(),
{
    if ls.len() == 0 {
        Map::empty()
    } else {
        let rest = tags_of_lines(ls.drop_last());
        match tag_of_line(ls.last()) {
            Some((name, value)) => with_value(rest, name, value),
            None => rest,
        }
    }
}

fn names_tag(name: &str) -> (r: bool)
    ensures
        r == is_tag_name(name@),
{
    let cs = chars_of(name);
    let mut upper: bool = false;
    let mut i: usize = 0;
    while i < cs.len()
        invariant
            i <= cs@.len(),
            cs@ == name@,
            upper <==> exists|j: int| 0 <= j < i && upper_case(#[trigger] cs@[j]),
            forall|j: int| 0 <= j < i ==> letter_or_digit(#[trigger] cs@[j]) || cs@[j] == '-',
        decreases cs@.len() - i,
    {
        let c = cs[i];
        if !(c.is_alphanumeric() || c == '-') {
            assert(!letter_or_digit(cs@[i as int]) && cs@[i as int] != '-');
            return false;
        }
        if c.is_uppercase() {
            assert(upper_case(cs@[i as int]));
            upper = true;
        }
        i += 1;
    }
    upper
}

fn line_tag(line: &str) -> (r: Option<(String, String)>)
    ensures
        match r {
            Some((name, value)) => tag_of_line(line@) == Some((name@, value@)),
            None => tag_of_line(line@) is None,
        },
{
    let cs = chars_of(trim(line).as_str());
    proof {
        lemma_position(cs@, ':');
    }
    match find_char(&cs, ':') {
        None => None,
        Some(at) => {
            let n: usize = cs.len();
            let name = trim_range(&cs, 0, at);
            let value = trim_range(&cs, at + 1, n);
            if names_tag(name.as_str()) && !value.as_str().is_empty() {
                Some((name, value))
            } else {
                None
            }
        },
    }
}

/// The tags of a commit message.
pub fn parse_commit_message_tags(message: &str) -> (r: TagMap)
    ensures
        r.wf(),
        r@ == tags_of_lines(lines(message@)),
{
    let ls = lines_of(message);
    let mut tags = TagMap::new();
    let mut i: usize = 0;
    while i < ls.len()
        invariant
            i <= ls@.len(),
            strs(ls@) == lines(message@),
            tags.wf(),
            tags@ == tags_of_lines(strs(ls@).take(i as int)),
        decreases ls@.len() - i,
    {
        proof {
            assert(strs(ls@).take(i + 1).drop_last() =~= strs(ls@).take(i as int));
            assert(strs(ls@).take(i + 1).last() == ls@[i as int]@);
        }
        if let Some((name, value)) = line_tag(ls[i].as_str()) {
            tags.add_value(name, value);
        }
        i += 1;
    }
    proof {
        assert(strs(ls@).take(i as int) =~= strs(ls@));
    }
    tags
}

/// Every tag has the name of one, and at least one value; no value is empty.
pub proof fn law_tags(ls: Seq<Seq<char>>, name: Seq<char>)
    requires
        tags_of_lines(ls).contains_key(name),
    ensures
        is_tag_name(name),
        tags_of_lines(ls)[name].len() > 0,
        forall|i: int|
            0 <= i < tags_of_lines(ls)[name].len() ==> (#[trigger] tags_of_lines(ls)[name][i]).len() > 0,
    decreases ls.len(),
{
    let rest = tags_of_lines(ls.drop_last());
    if rest.contains_key(name) {
        law_tags(ls.drop_last(), name);
    }
}

/// A line is a tag exactly where, trimmed, it has a colon, what stands before its first colon
/// is, trimmed, letters, digits and dashes with an upper case letter among them, and what
/// stands behind is, trimmed, not empty. These two are its name and its value.
pub proof fn law_tag_line(line: Seq<char>, before: Seq<char>, behind: Seq<char>)
    requires
        trimmed(line) == before.push(':') + behind,
        !before.contains(':'),
    ensures
        tag_of_line(line) is Some <==> trimmed(behind).len() > 0 && (forall|i: int|
            0 <= i < trimmed(before).len() ==> letter_or_digit(#[trigger] trimmed(before)[i])
                || trimmed(before)[i] == '-') && (exists|i: int|
            0 <= i < trimmed(before).len() && upper_case(#[trigger] trimmed(before)[i])),
        tag_of_line(line) is Some ==> tag_of_line(line) == Some((trimmed(before), trimmed(behind))),
{
    let l = trimmed(line);
    lemma_position(l, ':');
    assert(l[before.len() as int] == ':');
    assert(position(l, ':') == before.len()) by {
        if position(l, ':') < before.len() {
            assert(before[position(l, ':')] == ':');
        }
    }
    assert(l.subrange(0, before.len() as int) =~= before);
    assert(l.subrange((before.len() + 1) as int, l.len() as int) =~= behind);
}

/// A line without a colon is no tag.
pub proof fn law_no_tag(line: Seq<char>)
    requires
        !trimmed(line).contains(':'),
    ensures
        tag_of_line(line) is None,
{
    let l = trimmed(line);
    lemma_position(l, ':');
    if position(l, ':') < l.len() {
        assert(l[position(l, ':')] == ':');
    }
}

/// One more line adds its value behind those of its name, and leaves the other names as they
/// are; a line that is no tag changes nothing. Without lines there are no tags.
pub proof fn law_tags_of_lines(ls: Seq<Seq<char>>, line: Seq<char>, other: Seq<char>)
    ensures
        tags_of_lines(Seq::<Seq<char>>::empty()).dom() == Set::<Seq<char>>::empty(),
        tag_of_line(line) is None ==> tags_of_lines(ls.push(line)) == tags_of_lines(ls),
        tag_of_line(line) matches Some(tag) ==> {
            let before = tags_of_lines(ls);
            let now = tags_of_lines(ls.push(line));
            &&& now.contains_key(tag.0)
            &&& before.contains_key(tag.0) ==> now[tag.0] == before[tag.0].push(tag.1)
            &&& !before.contains_key(tag.0) ==> now[tag.0] == seq![tag.1]
            &&& other != tag.0 ==> (now.contains_key(other) <==> before.contains_key(other))
            &&& other != tag.0 && before.contains_key(other) ==> now[other] == before[other]
        },
{
    assert(ls.push(line).drop_last() =~= ls);
    assert(tags_of_lines(Seq::<Seq<char>>::empty()).dom() =~= Set::<Seq<char>>::empty());
    if tag_of_line(line) is Some {
        let tag = tag_of_line(line)->0;
        assert(Seq::<Seq<char>>::empty().push(tag.1) =~= seq![tag.1]);
    }
}

/// A list of entries with distinct names maps each name to the values of its entry, and no
/// other name to anything.
pub proof fn law_tag_entries(entries: Seq<(String, Vec<String>)>)
    requires
        forall|i: int, j: int|
            0 <= i < j < entries.len() ==> (#[trigger] entries[i]).0@ != (#[trigger] entries[j]).0@,
    ensures
        forall|i: int|
            0 <= i < entries.len() ==> entries_map(entries).contains_key((#[trigger] entries[i]).0@)
                && entries_map(entries)[entries[i].0@] == strs(entries[i].1@),
        forall|k: Seq<char>| #[trigger]
            entries_map(entries).contains_key(k) ==> exists|i: int|
                0 <= i < entries.len() && (#[trigger] entries[i]).0@ == k,
{
    lemma_entries_names(entries);
    lemma_entries_values(entries);
}

/// One more value for a name stands behind those it has, or alone where it has none; every
/// other name keeps its values.
pub proof fn law_with_value(
    m: Map<Seq<char>, Seq<Seq<char>>>,
    name: Seq<char>,
    value: Seq<char>,
    other: Seq<char>,
)
    ensures
        with_value(m, name, value).contains_key(name),
        m.contains_key(name) ==> with_value(m, name, value)[name] == m[name].push(value),
        !m.contains_key(name) ==> with_value(m, name, value)[name] == seq![value],
        other != name ==> (with_value(m, name, value).contains_key(other) <==> m.contains_key(other)),
        other != name && m.contains_key(other) ==> with_value(m, name, value)[other] == m[other],
{
    assert(Seq::<Seq<char>>::empty().push(value) =~= seq![value]);
}

/// In a map of tags no name stands twice.
pub proof fn law_tag_names(tags: TagMap, i: int, j: int)
    requires
        tags.wf(),
        0 <= i < j < tags.entries@.len(),
    ensures
        tags.entries@[i].0@ != tags.entries@[j].0@,
{
}

} // verus!
