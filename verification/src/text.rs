//! Text as a sequence of characters.
use vstd::prelude::*;
use vstd::utf8::{decode_utf8, valid_utf8};

verus! {

/// The texts of a list of strings.
pub open spec fn strs(v: Seq<String>) -> Seq<Seq<char>> {
    Seq::new(v.len(), |i: int| v[i]@)
}

/// The texts of a longer list.
pub broadcast proof fn lemma_strs_push(v: Seq<String>, s: String)
    ensures
        #[trigger] strs(v.push(s)) == strs(v).push(s@),
{
    assert(strs(v.push(s)) =~= strs(v).push(s@));
}

/// The texts of the empty list.
pub broadcast proof fn lemma_strs_empty(v: Seq<String>)
    requires
        v.len() == 0,
    ensures
        #[trigger] strs(v) == Seq::<Seq<char>>::empty(),
{
    assert(strs(v) =~= Seq::<Seq<char>>::empty());
}

/// The text of an optional string.
pub open spec fn opt_text(s: Option<&str>) -> Option<Seq<char>> {
    match s {
        Some(t) => Some(t@),
        None => None,
    }
}

/// The parts one after the other, with `sep` between neighbours.
pub open spec fn joined(parts: Seq<Seq<char>>, sep: Seq<char>) -> Seq<char>
    decreases parts.len(),
{
    if parts.len() == 0 {
        Seq::empty()
    } else if parts.len() == 1 {
        parts[0]
    } else {
        joined(parts.drop_last(), sep) + sep + parts.last()
    }
}

/// The pieces of `s` between occurrences of `c`; there is always at least one.
pub open spec fn pieces(s: Seq<char>, c: char) -> Seq<Seq<char>>
    decreases s.len(),
{
    if s.len() == 0 {
        seq![Seq::empty()]
    } else {
        let before = pieces(s.drop_last(), c);
        if s.last() == c {
            before.push(Seq::empty())
        } else {
            before.drop_last().push(before.last().push(s.last()))
        }
    }
}

/// A line without the carriage return that stood before its newline.
pub open spec fn without_return(line: Seq<char>) -> Seq<char> {
    if line.len() > 0 && line.last() == '\r' {
        line.drop_last()
    } else {
        line
    }
}

/// The lines of a text. A newline, or a carriage return and a newline, ends a
/// line and is no part of it; the last line may lack its ending.
pub open spec fn lines(s: Seq<char>) -> Seq<Seq<char>> {
    let all = pieces(s, '\n');
    let ended = all.drop_last().map_values(|line: Seq<char>| without_return(line));
    if all.last().len() == 0 {
        ended
    } else {
        ended.push(all.last())
    }
}

/// Whether a character is white space: those that have the Unicode property
/// `White_Space`.
pub open spec fn is_space(c: char) -> bool {
    let n = c as int;
    ||| 0x09 <= n <= 0x0d
    ||| n == 0x20
    ||| n == 0x85
    ||| n == 0xa0
    ||| n == 0x1680
    ||| 0x2000 <= n <= 0x200a
    ||| n == 0x2028
    ||| n == 0x2029
    ||| n == 0x202f
    ||| n == 0x205f
    ||| n == 0x3000
}

/// Whether a character is one of ASCII.
pub open spec fn is_ascii_char(c: char) -> bool {
    c as int <= 0x7f
}

/// A character of ASCII in lower case.
pub open spec fn ascii_lower(c: char) -> char {
    if 'A' <= c <= 'Z' {
        (c as int + 32) as char
    } else {
        c
    }
}

/// Whether a character is a letter or a digit: what `char::is_alphanumeric` answers.
pub uninterp spec fn letter_or_digit(c: char) -> bool;

/// Whether a character is an upper-case letter: what `char::is_uppercase` answers.
pub uninterp spec fn upper_case(c: char) -> bool;

/// A text in lower case: what `str::to_lowercase` returns.
pub uninterp spec fn lowercase(s: Seq<char>) -> Seq<char>;

/// Bytes as text, with each malformed part replaced: what
/// `String::from_utf8_lossy` returns.
pub uninterp spec fn lossy_text(bytes: Seq<u8>) -> Seq<char>;

/// `char::is_whitespace`: true of the characters with the Unicode property
/// `White_Space`, which `is_space` lists.
pub assume_specification[ char::is_whitespace ](c: char) -> (b: bool)
    ensures
        b == is_space(c),
;

/// `char::is_alphanumeric`: its answer depends on the character alone. Of ASCII
/// these are the ten digits and the letters in both cases.
pub assume_specification[ char::is_alphanumeric ](c: char) -> (b: bool)
    ensures
        b == letter_or_digit(c),
        is_ascii_char(c) ==> b == ('0' <= c <= '9' || 'A' <= c <= 'Z' || 'a' <= c <= 'z'),
;

/// `char::is_uppercase`: its answer depends on the character alone. Of ASCII these
/// are the letters from A to Z.
pub assume_specification[ char::is_uppercase ](c: char) -> (b: bool)
    ensures
        b == upper_case(c),
        is_ascii_char(c) ==> b == ('A' <= c <= 'Z'),
;

/// `str::to_lowercase`: its result depends on the text alone. In a text of ASCII
/// each letter becomes its lower-case form and nothing else changes.
pub assume_specification[ str::to_lowercase ](s: &str) -> (r: String)
    ensures
        r@ == lowercase(s@),
        (forall|i: int| 0 <= i < s@.len() ==> is_ascii_char(#[trigger] s@[i])) ==> r@ == s@.map_values(
            |c: char| ascii_lower(c),
        ),
;

/// `String::from_utf8_lossy`: its result depends on the bytes alone, and bytes
/// that are well-formed UTF-8 are the text that they encode.
#[verifier::external_body]
pub(crate) fn text_from_bytes(bytes: &Vec<u8>) -> (r: String)
    ensures
        r@ == lossy_text(bytes@),
        valid_utf8(bytes@) ==> r@ == decode_utf8(bytes@),
{
    String::from_utf8_lossy(bytes).into_owned()
}

/// Appends one character: `String::push`.
pub assume_specification[ String::push ](s: &mut String, c: char)
    ensures
        final(s)@ == old(s)@.push(c),
;

/// The characters of a text.
pub fn chars_of(s: &str) -> (r: Vec<char>)
    ensures
        r@ == s@,
{
    let mut out: Vec<char> = Vec::new();
    for c in it: s.chars()
        invariant
            out@ =~= s@.take(it.index()),
            it.seq() == s@,
    {
        out.push(c);
    }
    out
}

/// The text made of the characters from `from` up to `to`.
pub fn string_of(cs: &Vec<char>, from: usize, to: usize) -> (r: String)
    requires
        from <= to <= cs@.len(),
    ensures
        r@ == cs@.subrange(from as int, to as int),
{
    let mut out: String = String::new();
    let mut i: usize = from;
    while i < to
        invariant
            from <= i <= to <= cs@.len(),
            out@ =~= cs@.subrange(from as int, i as int),
        decreases to - i,
    {
        out.push(cs[i]);
        i += 1;
    }
    out
}


/// The lines of a text.
pub fn lines_of(s: &str) -> (r: Vec<String>)
    ensures
        strs(r@) == lines(s@),
{
    let cs: Vec<char> = chars_of(s);
    let mut out: Vec<String> = Vec::new();
    let mut start: usize = 0;
    let mut i: usize = 0;
    proof {
        assert(cs@.take(0) =~= Seq::empty());
        assert(cs@.subrange(0, 0) =~= Seq::empty());
    }
    while i < cs.len()
        invariant
            start <= i <= cs@.len(),
            pieces(cs@.take(i as int), '\n').len() > 0,
            pieces(cs@.take(i as int), '\n').last() == cs@.subrange(start as int, i as int),
            strs(out@) =~= pieces(cs@.take(i as int), '\n').drop_last().map_values(
                |line: Seq<char>| without_return(line),
            ),
        decreases cs@.len() - i,
    {
        let ghost before = pieces(cs@.take(i as int), '\n');
        proof {
            assert(cs@.take(i + 1).drop_last() =~= cs@.take(i as int));
            assert(cs@.take(i + 1).last() == cs@[i as int]);
        }
        if cs[i] == '\n' {
            let end: usize = if i > start && cs[i - 1] == '\r' { i - 1 } else { i };
            let ghost line = cs@.subrange(start as int, i as int);
            proof {
                assert(end != i ==> line.drop_last() =~= cs@.subrange(start as int, end as int));
                assert(pieces(cs@.take(i + 1), '\n') =~= before.push(Seq::empty()));
                assert(before.push(Seq::empty()).drop_last() =~= before);
                assert(before =~= before.drop_last().push(line));
                assert(cs@.subrange(i + 1, i + 1) =~= Seq::empty());
            }
            let ghost done = strs(out@);
            out.push(string_of(&cs, start, end));
            start = i + 1;
            proof {
                assert(strs(out@) =~= done.push(without_return(line)));
            }
        } else {
            proof {
                let line = cs@.subrange(start as int, i as int);
                assert(line.push(cs@[i as int]) =~= cs@.subrange(start as int, i + 1));
                assert(pieces(cs@.take(i + 1), '\n').drop_last() =~= before.drop_last());
            }
        }
        i += 1;
    }
    proof {
        assert(cs@.take(cs@.len() as int) =~= s@);
    }
    if start < cs.len() {
        let ghost done = strs(out@);
        out.push(string_of(&cs, start, i));
        proof {
            assert(strs(out@) =~= done.push(cs@.subrange(start as int, i as int)));
        }
    }
    out
}

/// A text without the white space at its start.
pub open spec fn trimmed_start(s: Seq<char>) -> Seq<char>
    decreases s.len(),
{
    if s.len() > 0 && is_space(s[0]) {
        trimmed_start(s.drop_first())
    } else {
        s
    }
}

/// A text without the white space at its end.
pub open spec fn trimmed_end(s: Seq<char>) -> Seq<char>
    decreases s.len(),
{
    if s.len() > 0 && is_space(s.last()) {
        trimmed_end(s.drop_last())
    } else {
        s
    }
}

/// A text without the white space at its start and at its end.
pub open spec fn trimmed(s: Seq<char>) -> Seq<char> {
    trimmed_end(trimmed_start(s))
}

/// The characters from `from` up to `to` without white space at either end.
pub fn trim_range(cs: &Vec<char>, from: usize, to: usize) -> (r: String)
    requires
        from <= to <= cs@.len(),
    ensures
        r@ == trimmed(cs@.subrange(from as int, to as int)),
{
    let mut i: usize = from;
    let mut j: usize = to;
    while i < to && cs[i].is_whitespace()
        invariant
            from <= i <= to <= cs@.len(),
            trimmed_start(cs@.subrange(i as int, to as int)) == trimmed_start(
                cs@.subrange(from as int, to as int),
            ),
        ensures
            from <= i <= to <= cs@.len(),
            trimmed_start(cs@.subrange(from as int, to as int)) == cs@.subrange(
                i as int,
                to as int,
            ),
        decreases to - i,
    {
        proof {
            assert(cs@.subrange(i as int, to as int).drop_first() =~= cs@.subrange(
                i + 1,
                to as int,
            ));
        }
        i += 1;
    }
    while i < j && cs[j - 1].is_whitespace()
        invariant
            i <= j <= cs@.len(),
            trimmed_end(cs@.subrange(i as int, j as int)) == trimmed(
                cs@.subrange(from as int, to as int),
            ),
        ensures
            i <= j <= cs@.len(),
            trimmed(cs@.subrange(from as int, to as int)) == cs@.subrange(i as int, j as int),
        decreases j,
    {
        proof {
            assert(cs@.subrange(i as int, j as int).drop_last() =~= cs@.subrange(
                i as int,
                j - 1,
            ));
        }
        j -= 1;
    }
    string_of(cs, i, j)
}

/// A text without white space at either end.
pub fn trim(s: &str) -> (r: String)
    ensures
        r@ == trimmed(s@),
{
    let cs: Vec<char> = chars_of(s);
    proof {
        assert(cs@.subrange(0, cs@.len() as int) =~= s@);
    }
    trim_range(&cs, 0, cs.len())
}

/// The position of the first `c` in `s`, or the length of `s` where there is none.
pub open spec fn position(s: Seq<char>, c: char) -> int
    decreases s.len(),
{
    if s.len() == 0 {
        0
    } else if s[0] == c {
        0
    } else {
        1 + position(s.drop_first(), c)
    }
}

/// The first `c` is where `position` says, and none comes before it.
pub proof fn lemma_position(s: Seq<char>, c: char)
    ensures
        0 <= position(s, c) <= s.len(),
        forall|i: int| 0 <= i < position(s, c) ==> s[i] != c,
        position(s, c) < s.len() ==> s[position(s, c)] == c,
    decreases s.len(),
{
    if s.len() > 0 && s[0] != c {
        let rest = s.drop_first();
        lemma_position(rest, c);
        assert forall|i: int| 0 <= i < position(s, c) implies s[i] != c by {
            if i > 0 {
                assert(s[i] == rest[i - 1]);
            }
        }
    }
}

/// The position of the first `c`, if there is one.
pub fn find_char(cs: &Vec<char>, c: char) -> (r: Option<usize>)
    ensures
        match r {
            Some(i) => i < cs@.len() && i == position(cs@, c),
            None => position(cs@, c) == cs@.len(),
        },
{
    let mut i: usize = 0;
    proof {
        assert(cs@.skip(0) =~= cs@);
    }
    while i < cs.len()
        invariant
            0 <= i <= cs@.len(),
            position(cs@, c) == i + position(cs@.skip(i as int), c),
        decreases cs@.len() - i,
    {
        proof {
            assert(cs@.skip(i as int).drop_first() =~= cs@.skip(i + 1));
        }
        if cs[i] == c {
            return Some(i);
        }
        i += 1;
    }
    None
}

/// Whether the characters of `s` from `at` on begin with `part`.
pub open spec fn occurs_at(s: Seq<char>, part: Seq<char>, at: int) -> bool {
    0 <= at && at + part.len() <= s.len() && s.subrange(at, at + part.len()) == part
}

fn matches_at(cs: &Vec<char>, part: &Vec<char>, at: usize) -> (r: bool)
    requires
        at <= cs@.len(),
    ensures
        r == occurs_at(cs@, part@, at as int),
{
    let n: usize = cs.len();
    if part.len() > n - at {
        return false;
    }
    let mut i: usize = 0;
    while i < part.len()
        invariant
            0 <= i <= part@.len(),
            n == cs@.len(),
            at + part@.len() <= n,
            forall|j: int| 0 <= j < i ==> cs@[at + j] == part@[j],
        decreases part@.len() - i,
    {
        if cs[at + i] != part[i] {
            proof {
                assert(cs@.subrange(at as int, at + part@.len())[i as int] == cs@[at + i]);
            }
            return false;
        }
        i += 1;
    }
    proof {
        assert(cs@.subrange(at as int, at + part@.len()) =~= part@);
    }
    true
}

/// Whether two texts are the same.
pub fn same(a: &str, b: &str) -> (r: bool)
    ensures
        r == (a@ == b@),
{
    let x: Vec<char> = chars_of(a);
    let y: Vec<char> = chars_of(b);
    if x.len() != y.len() {
        return false;
    }
    let r: bool = matches_at(&x, &y, 0);
    proof {
        assert(x@.subrange(0, x@.len() as int) =~= x@);
    }
    r
}

/// Whether `s` begins with `part`.
pub fn starts_with(s: &str, part: &str) -> (r: bool)
    ensures
        r == occurs_at(s@, part@, 0),
{
    let cs: Vec<char> = chars_of(s);
    let ps: Vec<char> = chars_of(part);
    matches_at(&cs, &ps, 0)
}

/// Whether `s` ends with `part`.
pub fn ends_with(s: &str, part: &str) -> (r: bool)
    ensures
        r == occurs_at(s@, part@, s@.len() - part@.len()),
{
    let cs: Vec<char> = chars_of(s);
    let ps: Vec<char> = chars_of(part);
    if ps.len() > cs.len() {
        return false;
    }
    matches_at(&cs, &ps, cs.len() - ps.len())
}

/// Whether `part` occurs anywhere in `s`.
pub open spec fn has_part(s: Seq<char>, part: Seq<char>) -> bool {
    exists|at: int| occurs_at(s, part, at)
}

/// Whether `part` occurs anywhere in `s`.
pub fn contains_part(s: &str, part: &str) -> (r: bool)
    ensures
        r == has_part(s@, part@),
{
    let cs: Vec<char> = chars_of(s);
    let ps: Vec<char> = chars_of(part);
    let mut at: usize = 0;
    loop
        invariant
            cs@ == s@,
            ps@ == part@,
            at <= cs@.len(),
            forall|j: int| 0 <= j < at ==> !occurs_at(cs@, ps@, j),
        decreases cs@.len() - at,
    {
        if matches_at(&cs, &ps, at) {
            return true;
        }
        if at == cs.len() {
            return false;
        }
        at += 1;
    }
}

/// `s` with each occurrence of `from`, taken from the left and not overlapping,
/// replaced by `to`. With an empty `from` nothing changes.
pub open spec fn replaced(s: Seq<char>, from: Seq<char>, to: Seq<char>) -> Seq<char>
    decreases s.len(),
{
    if from.len() == 0 || s.len() == 0 {
        s
    } else if occurs_at(s, from, 0) {
        to + replaced(s.skip(from.len() as int), from, to)
    } else {
        seq![s[0]] + replaced(s.drop_first(), from, to)
    }
}

/// Replaces each occurrence of `from` by `to`.
pub fn replace_all(s: &str, from: &str, to: &str) -> (r: String)
    requires
        from@.len() > 0,
    ensures
        r@ == replaced(s@, from@, to@),
{
    let cs: Vec<char> = chars_of(s);
    let fs: Vec<char> = chars_of(from);
    let mut out: String = String::new();
    let mut i: usize = 0;
    proof {
        assert(cs@.skip(0) =~= s@);
        assert(out@ + replaced(cs@.skip(0), fs@, to@) =~= replaced(s@, from@, to@));
    }
    while i < cs.len()
        invariant
            0 <= i <= cs@.len(),
            fs@ == from@,
            fs@.len() > 0,
            out@ + replaced(cs@.skip(i as int), fs@, to@) == replaced(s@, from@, to@),
        decreases cs@.len() - i,
    {
        let ghost rest = cs@.skip(i as int);
        let here: bool = matches_at(&cs, &fs, i);
        proof {
            if i + fs@.len() <= cs@.len() {
                assert(rest.subrange(0, fs@.len() as int) =~= cs@.subrange(
                    i as int,
                    i + fs@.len(),
                ));
            }
            assert(occurs_at(rest, fs@, 0) == here);
        }
        let ghost was = out@;
        if here {
            proof {
                assert(rest.skip(fs@.len() as int) =~= cs@.skip(i + fs@.len()));
            }
            out.append(to);
            i += fs.len();
            proof {
                assert(out@ + replaced(cs@.skip(i as int), fs@, to@) =~= was + replaced(
                    rest,
                    fs@,
                    to@,
                ));
            }
        } else {
            proof {
                assert(rest.drop_first() =~= cs@.skip(i + 1));
            }
            out.push(cs[i]);
            i += 1;
            proof {
                assert(out@ + replaced(cs@.skip(i as int), fs@, to@) =~= was + replaced(
                    rest,
                    fs@,
                    to@,
                ));
            }
        }
    }
    proof {
        assert(cs@.skip(i as int) =~= Seq::empty());
        assert(out@ + Seq::empty() =~= out@);
    }
    out
}

/// The pieces of `s` between occurrences of `sep`, taken from the left and not
/// overlapping; there is always at least one. With an empty `sep` it is `s` alone.
pub open spec fn split_on(s: Seq<char>, sep: Seq<char>) -> Seq<Seq<char>>
    decreases s.len(),
{
    if sep.len() == 0 || s.len() == 0 {
        seq![s]
    } else if occurs_at(s, sep, 0) {
        seq![Seq::<char>::empty()] + split_on(s.skip(sep.len() as int), sep)
    } else {
        let rest = split_on(s.drop_first(), sep);
        seq![seq![s[0]] + rest[0]] + rest.drop_first()
    }
}

pub proof fn lemma_split_on_nonempty(s: Seq<char>, sep: Seq<char>)
    ensures
        split_on(s, sep).len() > 0,
    decreases s.len(),
{
    if sep.len() == 0 || s.len() == 0 {
    } else if occurs_at(s, sep, 0) {
        lemma_split_on_nonempty(s.skip(sep.len() as int), sep);
    } else {
        lemma_split_on_nonempty(s.drop_first(), sep);
    }
}

/// The pieces of `s` between occurrences of `sep`.
pub fn split_text(s: &str, sep: &str) -> (r: Vec<String>)
    requires
        sep@.len() > 0,
    ensures
        strs(r@) == split_on(s@, sep@),
{
    let cs: Vec<char> = chars_of(s);
    let ps: Vec<char> = chars_of(sep);
    let mut out: Vec<String> = Vec::new();
    let mut cur: String = String::new();
    let mut i: usize = 0;
    proof {
        assert(cs@.skip(0) =~= s@);
        lemma_split_on_nonempty(s@, sep@);
        let rest = split_on(s@, sep@);
        assert(cur@ + rest[0] =~= rest[0]);
        assert(strs(out@) + seq![cur@ + rest[0]] + rest.drop_first() =~= rest);
    }
    while i < cs.len()
        invariant
            0 <= i <= cs@.len(),
            ps@ == sep@,
            ps@.len() > 0,
            ({
                let rest = split_on(cs@.skip(i as int), ps@);
                strs(out@) + seq![cur@ + rest[0]] + rest.drop_first() == split_on(s@, sep@)
            }),
        decreases cs@.len() - i,
    {
        let ghost left = cs@.skip(i as int);
        let ghost rest = split_on(left, ps@);
        let ghost was = strs(out@);
        let ghost had = cur@;
        let here: bool = matches_at(&cs, &ps, i);
        proof {
            if i + ps@.len() <= cs@.len() {
                assert(left.subrange(0, ps@.len() as int) =~= cs@.subrange(
                    i as int,
                    i + ps@.len(),
                ));
            }
            assert(occurs_at(left, ps@, 0) == here);
        }
        if here {
            proof {
                assert(left.skip(ps@.len() as int) =~= cs@.skip(i + ps@.len()));
            }
            out.push(cur);
            cur = String::new();
            i += ps.len();
            proof {
                let next = split_on(cs@.skip(i as int), ps@);
                lemma_split_on_nonempty(cs@.skip(i as int), ps@);
                assert(strs(out@) =~= was.push(had));
                assert(had + rest[0] =~= had);
                assert(cur@ + next[0] =~= next[0]);
                assert(rest.drop_first() =~= next);
                assert(strs(out@) + seq![cur@ + next[0]] + next.drop_first() =~= was + seq![
                    had + rest[0],
                ] + rest.drop_first());
            }
        } else {
            proof {
                assert(left.drop_first() =~= cs@.skip(i + 1));
            }
            cur.push(cs[i]);
            i += 1;
            proof {
                let next = split_on(cs@.skip(i as int), ps@);
                lemma_split_on_nonempty(cs@.skip(i as int), ps@);
                assert(had + rest[0] =~= cur@ + next[0]);
                assert(rest.drop_first() =~= next.drop_first());
            }
        }
    }
    let ghost was = strs(out@);
    let ghost had = cur@;
    out.push(cur);
    proof {
        let rest = split_on(cs@.skip(i as int), ps@);
        assert(cs@.skip(i as int) =~= Seq::empty());
        assert(had + rest[0] =~= had);
        assert(strs(out@) =~= was + seq![had + rest[0]] + rest.drop_first());
    }
    out
}

/// Joins the parts with `sep` between neighbours.
pub fn join(parts: &Vec<String>, sep: &str) -> (r: String)
    ensures
        r@ == joined(strs(parts@), sep@),
{
    let mut out: String = String::new();
    let mut i: usize = 0;
    while i < parts.len()
        invariant
            0 <= i <= parts@.len(),
            out@ == joined(strs(parts@).take(i as int), sep@),
        decreases parts@.len() - i,
    {
        proof {
            assert(strs(parts@).take(i + 1).drop_last() =~= strs(parts@).take(i as int));
            if i == 0 {
                assert(out@ + parts@[0]@ =~= parts@[0]@);
            }
        }
        if i > 0 {
            out.append(sep);
        }
        out.append(parts[i].as_str());
        i += 1;
    }
    proof {
        assert(strs(parts@).take(i as int) =~= strs(parts@));
    }
    out
}

/// The decimal digit of a number below ten.
pub open spec fn digit(n: nat) -> char {
    if n == 0 {
        '0'
    } else if n == 1 {
        '1'
    } else if n == 2 {
        '2'
    } else if n == 3 {
        '3'
    } else if n == 4 {
        '4'
    } else if n == 5 {
        '5'
    } else if n == 6 {
        '6'
    } else if n == 7 {
        '7'
    } else if n == 8 {
        '8'
    } else {
        '9'
    }
}

/// A number in decimal, without leading zeros.
pub open spec fn decimal(n: nat) -> Seq<char>
    decreases n,
{
    if n < 10 {
        seq![digit(n)]
    } else {
        decimal(n / 10).push(digit(n % 10))
    }
}

fn digit_char(n: u64) -> (c: char)
    requires
        n < 10,
    ensures
        c == digit(n as nat),
{
    match n {
        0 => '0',
        1 => '1',
        2 => '2',
        3 => '3',
        4 => '4',
        5 => '5',
        6 => '6',
        7 => '7',
        8 => '8',
        _ => '9',
    }
}

/// Writes a number in decimal.
pub fn decimal_text(n: u64) -> (r: String)
    ensures
        r@ == decimal(n as nat),
    decreases n,
{
    if n < 10 {
        let mut out: String = String::new();
        out.push(digit_char(n));
        proof {
            assert(out@ =~= seq![digit(n as nat)]);
        }
        out
    } else {
        let mut out: String = decimal_text(n / 10);
        out.push(digit_char(n % 10));
        out
    }
}

/// Whether a text is in a list.
pub fn is_member(v: &Vec<String>, s: &str) -> (r: bool)
    ensures
        r == strs(v@).contains(s@),
{
    let mut i: usize = 0;
    while i < v.len()
        invariant
            0 <= i <= v@.len(),
            forall|j: int| 0 <= j < i ==> v@[j]@ != s@,
        decreases v@.len() - i,
    {
        if same(v[i].as_str(), s) {
            proof {
                assert(strs(v@)[i as int] == s@);
            }
            return true;
        }
        i += 1;
    }
    false
}

/// Joining lists one after the other joins what each gives.
pub proof fn law_joined_lists(a: Seq<Seq<char>>, b: Seq<Seq<char>>, sep: Seq<char>)
    ensures
        joined(Seq::<Seq<char>>::empty(), sep) == Seq::<char>::empty(),
        a.len() == 1 ==> joined(a, sep) == a[0],
        a.len() > 0 && b.len() > 0 ==> joined(a + b, sep) == joined(a, sep) + sep + joined(b, sep),
    decreases b.len(),
{
    if a.len() > 0 && b.len() == 1 {
        assert((a + b).drop_last() =~= a);
    } else if a.len() > 0 && b.len() > 1 {
        law_joined_lists(a, b.drop_last(), sep);
        assert((a + b).drop_last() =~= a + b.drop_last());
        assert(joined(a + b, sep) =~= joined(a, sep) + sep + joined(b, sep));
    }
}

/// The pieces of a text hold none of the character between them, and with it between
/// them they are the text again.
pub proof fn law_pieces(s: Seq<char>, c: char)
    ensures
        pieces(s, c).len() > 0,
        joined(pieces(s, c), seq![c]) == s,
        forall|i: int| 0 <= i < pieces(s, c).len() ==> !(#[trigger] pieces(s, c)[i]).contains(c),
    decreases s.len(),
{
    if s.len() > 0 {
        let before = pieces(s.drop_last(), c);
        let now = pieces(s, c);
        law_pieces(s.drop_last(), c);
        if s.last() == c {
            assert(now.drop_last() =~= before);
            assert(joined(now, seq![c]) =~= s);
        } else {
            assert(now.drop_last() =~= before.drop_last());
            assert(now.last() =~= before.last().push(s.last()));
            assert(s =~= s.drop_last().push(s.last()));
            if before.len() == 1 {
                assert(joined(now, seq![c]) == now[0]);
            } else {
                assert(joined(before, seq![c]) == joined(before.drop_last(), seq![c]) + seq![c]
                    + before.last());
                assert(joined(now, seq![c]) == joined(now.drop_last(), seq![c]) + seq![c]
                    + now.last());
            }
            assert(joined(now, seq![c]) =~= s);
            assert forall|i: int| 0 <= i < now.len() implies !(#[trigger] now[i]).contains(c) by {
                if i == now.len() - 1 {
                    assert(!before.last().contains(c));
                    if now[i].contains(c) {
                        let k = choose|k: int| 0 <= k < now[i].len() && now[i][k] == c;
                        assert(before.last()[k] == c);
                    }
                } else {
                    assert(now[i] == before[i]);
                }
            }
        }
    } else {
        assert(joined(pieces(s, c), seq![c]) =~= s);
    }
}

proof fn lemma_pieces_one(s: Seq<char>, c: char)
    requires
        !s.contains(c),
    ensures
        pieces(s, c) == seq![s],
    decreases s.len(),
{
    if s.len() > 0 {
        assert forall|k: int| 0 <= k < s.drop_last().len() implies s.drop_last()[k] != c by {
            assert(s[k] != c);
        }
        lemma_pieces_one(s.drop_last(), c);
        assert(s[s.len() - 1] != c);
        assert(pieces(s, c)[0] =~= s);
    } else {
        assert(s =~= Seq::<char>::empty());
    }
    assert(pieces(s, c) =~= seq![s]);
}

proof fn lemma_pieces_split(a: Seq<char>, b: Seq<char>, c: char)
    ensures
        pieces(a.push(c) + b, c) == pieces(a, c) + pieces(b, c),
        pieces(b, c).len() > 0,
    decreases b.len(),
{
    let s = a.push(c) + b;
    law_pieces(b, c);
    if b.len() == 0 {
        assert(s.drop_last() =~= a);
        assert(pieces(s, c) =~= pieces(a, c) + pieces(b, c));
    } else {
        assert(s.drop_last() =~= a.push(c) + b.drop_last());
        lemma_pieces_split(a, b.drop_last(), c);
        assert(pieces(s, c) =~= pieces(a, c) + pieces(b, c));
    }
}

/// The lines of a text, from its start: a text without a newline is one line, or none where
/// it is empty; what stands before the first newline is the first line, without a carriage
/// return at its end, and the lines of the rest follow.
pub proof fn law_lines(line: Seq<char>, rest: Seq<char>)
    requires
        !line.contains('\n'),
    ensures
        line.len() == 0 ==> lines(line).len() == 0,
        line.len() > 0 ==> lines(line) == seq![line],
        lines(line.push('\n') + rest) == seq![
            if line.len() > 0 && line.last() == '\r' {
                line.drop_last()
            } else {
                line
            },
        ] + lines(rest),
{
    lemma_pieces_one(line, '\n');
    lemma_pieces_split(line, rest, '\n');
    if line.len() > 0 {
        assert(lines(line) =~= seq![line]);
    }
    let all = pieces(line.push('\n') + rest, '\n');
    let tail = pieces(rest, '\n');
    assert(all.last() == tail.last());
    assert(all.drop_last() =~= seq![line] + tail.drop_last());
    assert(lines(line.push('\n') + rest) =~= seq![without_return(line)] + lines(rest));
}

/// A text without carriage returns is its lines with newlines between them, but for a
/// newline at its end. No line holds a newline.
pub proof fn law_lines_joined(s: Seq<char>)
    requires
        !s.contains('\r'),
    ensures
        s.len() > 0 && s.last() == '\n' ==> joined(lines(s), seq!['\n']) == s.drop_last(),
        s.len() == 0 || s.last() != '\n' ==> joined(lines(s), seq!['\n']) == s,
        forall|i: int| 0 <= i < lines(s).len() ==> !(#[trigger] lines(s)[i]).contains('\n'),
{
    let all = pieces(s, '\n');
    law_pieces(s, '\n');
    lemma_pieces_plain(s, '\n', '\r');
    assert forall|i: int| 0 <= i < all.len() implies without_return(#[trigger] all[i]) == all[i] by {
        assert(!all[i].contains('\r'));
        if all[i].len() > 0 {
            assert(all[i][all[i].len() - 1] != '\r');
        }
    }
    let ended = all.drop_last().map_values(|line: Seq<char>| without_return(line));
    assert(ended =~= all.drop_last());
    assert(ended.push(all.last()) =~= all);
    if all.last().len() == 0 {
        assert(lines(s) == all.drop_last());
        if all.len() > 1 {
            assert(s == joined(all.drop_last(), seq!['\n']) + seq!['\n'] + all.last());
            assert(s.drop_last() =~= joined(all.drop_last(), seq!['\n']));
        } else {
            assert(s =~= Seq::<char>::empty());
        }
    } else {
        assert(lines(s) == all);
        assert(s.last() == all.last().last()) by {
            if all.len() == 1 {
                assert(s == all[0]);
            } else {
                assert(s == joined(all.drop_last(), seq!['\n']) + seq!['\n'] + all.last());
            }
        }
        assert(all.last()[all.last().len() - 1] != '\n');
    }
}

proof fn lemma_pieces_plain(s: Seq<char>, c: char, other: char)
    requires
        !s.contains(other),
    ensures
        forall|i: int| 0 <= i < pieces(s, c).len() ==> !(#[trigger] pieces(s, c)[i]).contains(other),
    decreases s.len(),
{
    if s.len() > 0 {
        let before = pieces(s.drop_last(), c);
        let now = pieces(s, c);
        assert forall|k: int| 0 <= k < s.drop_last().len() implies s.drop_last()[k] != other by {
            assert(s[k] != other);
        }
        lemma_pieces_plain(s.drop_last(), c, other);
        law_pieces(s.drop_last(), c);
        assert(s[s.len() - 1] != other);
        assert forall|i: int| 0 <= i < now.len() implies !(#[trigger] now[i]).contains(other) by {
            if now[i].contains(other) {
                let k = choose|k: int| 0 <= k < now[i].len() && now[i][k] == other;
                if s.last() != c && i == now.len() - 1 {
                    assert(before.last()[k] == other);
                    assert(!before[before.len() - 1].contains(other));
                } else {
                    assert(i < before.len());
                    assert(now[i] == before[i]);
                }
            }
        }
    }
}

proof fn lemma_trimmed_start(s: Seq<char>)
    ensures
        exists|a: int|
            0 <= a <= s.len() && trimmed_start(s) == #[trigger] s.subrange(a, s.len() as int) && (a
                < s.len() ==> !is_space(s[a])) && forall|i: int| 0 <= i < a ==> is_space(#[trigger] s[i]),
    decreases s.len(),
{
    if s.len() > 0 && is_space(s[0]) {
        let t = s.drop_first();
        lemma_trimmed_start(t);
        let a = choose|a: int|
            0 <= a <= t.len() && trimmed_start(t) == #[trigger] t.subrange(a, t.len() as int) && (a
                < t.len() ==> !is_space(t[a])) && forall|i: int| 0 <= i < a ==> is_space(#[trigger] t[i]);
        assert(t.subrange(a, t.len() as int) =~= s.subrange(a + 1, s.len() as int));
        assert forall|i: int| 0 <= i < a + 1 implies is_space(#[trigger] s[i]) by {
            if i > 0 {
                assert(s[i] == t[i - 1]);
            }
        }
    } else {
        assert(s.subrange(0, s.len() as int) =~= s);
    }
}

proof fn lemma_trimmed_end(s: Seq<char>)
    ensures
        exists|b: int|
            0 <= b <= s.len() && trimmed_end(s) == #[trigger] s.subrange(0, b) && (b > 0
                ==> !is_space(s[b - 1])) && forall|i: int| b <= i < s.len() ==> is_space(#[trigger] s[i]),
    decreases s.len(),
{
    if s.len() > 0 && is_space(s.last()) {
        let t = s.drop_last();
        lemma_trimmed_end(t);
        let b = choose|b: int|
            0 <= b <= t.len() && trimmed_end(t) == #[trigger] t.subrange(0, b) && (b > 0
                ==> !is_space(t[b - 1])) && forall|i: int| b <= i < t.len() ==> is_space(#[trigger] t[i]);
        assert(t.subrange(0, b) =~= s.subrange(0, b));
        assert forall|i: int| b <= i < s.len() implies is_space(#[trigger] s[i]) by {
            if i < t.len() {
                assert(s[i] == t[i]);
            }
        }
    } else {
        assert(s.subrange(0, s.len() as int) =~= s);
    }
}

/// A trimmed text is a stretch of the text: outside it all is white space, and it neither
/// starts nor ends with any.
pub proof fn law_trimmed(s: Seq<char>)
    ensures
        exists|a: int, b: int|
            0 <= a <= b <= s.len() && trimmed(s) == #[trigger] s.subrange(a, b) && (a < b
                ==> !is_space(s[a]) && !is_space(s[b - 1])) && (forall|i: int|
                0 <= i < a || b <= i < s.len() ==> is_space(#[trigger] s[i])),
{
    lemma_trimmed_start(s);
    let a = choose|a: int|
        0 <= a <= s.len() && trimmed_start(s) == #[trigger] s.subrange(a, s.len() as int) && (a
            < s.len() ==> !is_space(s[a])) && forall|i: int| 0 <= i < a ==> is_space(#[trigger] s[i]);
    let t = s.subrange(a, s.len() as int);
    lemma_trimmed_end(t);
    let n = choose|b: int|
        0 <= b <= t.len() && trimmed_end(t) == #[trigger] t.subrange(0, b) && (b > 0
            ==> !is_space(t[b - 1])) && forall|i: int| b <= i < t.len() ==> is_space(#[trigger] t[i]);
    let b = a + n;
    assert(t.subrange(0, n) =~= s.subrange(a, b));
    assert forall|i: int| 0 <= i < a || b <= i < s.len() implies is_space(#[trigger] s[i]) by {
        if i >= b {
            assert(s[i] == t[i - a]);
        }
    }
    assert(n > 0 ==> s[b - 1] == t[n - 1]);
}

/// One text stands in another at a place where the characters from there on are its own.
pub proof fn law_occurs(s: Seq<char>, part: Seq<char>, at: int)
    ensures
        occurs_at(s, part, at) <==> 0 <= at && at + part.len() <= s.len() && (forall|i: int|
            0 <= i < part.len() ==> #[trigger] part[i] == s[at + i]),
{
    if occurs_at(s, part, at) {
        assert forall|i: int| 0 <= i < part.len() implies #[trigger] part[i] == s[at + i] by {
            assert(s.subrange(at, at + part.len())[i] == s[at + i]);
        }
    } else if 0 <= at && at + part.len() <= s.len() && (forall|i: int|
        0 <= i < part.len() ==> #[trigger] part[i] == s[at + i]) {
        assert(s.subrange(at, at + part.len()) =~= part);
    }
}

/// The pieces between occurrences of a text hold none of it, and with it between them they
/// are the whole again. To replace it is to put another text between them.
pub proof fn law_split_on(s: Seq<char>, sep: Seq<char>, to: Seq<char>)
    requires
        sep.len() > 0,
    ensures
        split_on(s, sep).len() > 0,
        joined(split_on(s, sep), sep) == s,
        forall|i: int| 0 <= i < split_on(s, sep).len() ==> !has_part(#[trigger] split_on(s, sep)[i], sep),
        replaced(s, sep, to) == joined(split_on(s, sep), to),
        !has_part(s, sep) ==> replaced(s, sep, to) == s,
    decreases s.len(),
{
    lemma_split_prefix(s, sep);
    let all = split_on(s, sep);
    if s.len() == 0 {
        assert(all =~= seq![s]);
        if has_part(all[0], sep) {
            let at = choose|at: int| occurs_at(all[0], sep, at);
        }
    } else if occurs_at(s, sep, 0) {
        let rest = split_on(s.skip(sep.len() as int), sep);
        law_split_on(s.skip(sep.len() as int), sep, to);
        law_joined_lists(seq![Seq::<char>::empty()], rest, sep);
        law_joined_lists(seq![Seq::<char>::empty()], rest, to);
        assert(joined(all, sep) =~= s) by {
            assert(s =~= sep + s.skip(sep.len() as int));
        }
        assert(joined(all, to) =~= replaced(s, sep, to));
        assert forall|i: int| 0 <= i < all.len() implies !has_part(#[trigger] all[i], sep) by {
            if i == 0 {
                if has_part(all[0], sep) {
                    let at = choose|at: int| occurs_at(all[0], sep, at);
                }
            } else {
                assert(all[i] == rest[i - 1]);
            }
        }
        assert(has_part(s, sep));
    } else {
        let rest = split_on(s.drop_first(), sep);
        law_split_on(s.drop_first(), sep, to);
        let first = seq![s[0]] + rest[0];
        lemma_joined_longer_first(s[0], rest, sep);
        lemma_joined_longer_first(s[0], rest, to);
        assert(all == seq![first] + rest.drop_first());
        assert(joined(all, sep) =~= s);
        assert forall|i: int| 0 <= i < all.len() implies !has_part(#[trigger] all[i], sep) by {
            if i == 0 {
                if has_part(all[0], sep) {
                    let at = choose|at: int| occurs_at(all[0], sep, at);
                    if at == 0 {
                        assert(s.subrange(0, sep.len() as int) =~= all[0].subrange(0, sep.len() as int));
                    } else {
                        assert(rest[0].subrange(at - 1, at - 1 + sep.len()) =~= all[0].subrange(
                            at,
                            at + sep.len(),
                        ));
                        assert(occurs_at(rest[0], sep, at - 1));
                        assert(has_part(rest[0], sep));
                    }
                }
            } else {
                assert(all[i] == rest[i]);
            }
        }
        if !has_part(s, sep) {
            if has_part(s.drop_first(), sep) {
                let at = choose|at: int| occurs_at(s.drop_first(), sep, at);
                assert(s.subrange(at + 1, at + 1 + sep.len()) =~= s.drop_first().subrange(
                    at,
                    at + sep.len(),
                ));
                assert(occurs_at(s, sep, at + 1));
            }
            assert(replaced(s, sep, to) =~= s);
        }
    }
}

proof fn lemma_split_prefix(s: Seq<char>, sep: Seq<char>)
    ensures
        split_on(s, sep).len() > 0,
        split_on(s, sep)[0].len() <= s.len(),
        split_on(s, sep)[0] == s.take(split_on(s, sep)[0].len() as int),
    decreases s.len(),
{
    if sep.len() == 0 || s.len() == 0 {
        assert(s.take(s.len() as int) =~= s);
    } else if occurs_at(s, sep, 0) {
        lemma_split_prefix(s.skip(sep.len() as int), sep);
        assert(s.take(0) =~= Seq::empty());
    } else {
        let rest = split_on(s.drop_first(), sep);
        lemma_split_prefix(s.drop_first(), sep);
        assert(split_on(s, sep)[0] =~= s.take(split_on(s, sep)[0].len() as int));
    }
}

proof fn lemma_joined_longer_first(c: char, parts: Seq<Seq<char>>, sep: Seq<char>)
    requires
        parts.len() > 0,
    ensures
        joined(seq![seq![c] + parts[0]] + parts.drop_first(), sep) == seq![c] + joined(parts, sep),
{
    let tail = parts.drop_first();
    let first = seq![parts[0]];
    let longer = seq![seq![c] + parts[0]];
    law_joined_lists(first, tail, sep);
    law_joined_lists(longer, tail, sep);
    assert(first + tail =~= parts);
    if tail.len() == 0 {
        assert(longer + tail =~= longer);
    }
    assert(joined(longer + tail, sep) =~= seq![c] + joined(parts, sep));
}

/// The number that decimal digits stand for.
pub open spec fn number_of(digits: Seq<char>) -> int
    decreases digits.len(),
{
    if digits.len() == 0 {
        0
    } else {
        10 * number_of(digits.drop_last()) + (digits.last() as int - '0' as int)
    }
}

/// A number in decimal is digits alone that stand for it, and only zero starts with a zero.
pub proof fn law_decimal(n: nat)
    ensures
        number_of(decimal(n)) == n,
        decimal(n).len() > 0,
        decimal(n)[0] == '0' ==> n == 0,
        forall|i: int| 0 <= i < decimal(n).len() ==> '0' <= #[trigger] decimal(n)[i] <= '9',
    decreases n,
{
    if n < 10 {
        assert(decimal(n).drop_last() =~= Seq::<char>::empty());
        assert(number_of(decimal(n).drop_last()) == 0);
    } else {
        law_decimal(n / 10);
        assert(decimal(n).drop_last() =~= decimal(n / 10));
        assert(decimal(n)[0] == decimal(n / 10)[0]);
    }
}

/// The lines of two texts with a newline between them are those of the one, ended, and
/// those of the other.
pub proof fn law_lines_split(a: Seq<char>, b: Seq<char>)
    ensures
        lines(a.push('\n') + b) == lines(a.push('\n')) + lines(b),
{
    lemma_pieces_split(a, b, '\n');
    lemma_pieces_split(a, Seq::empty(), '\n');
    assert(a.push('\n') + Seq::<char>::empty() =~= a.push('\n'));
    let all = pieces(a.push('\n') + b, '\n');
    let head = pieces(a.push('\n'), '\n');
    let tail = pieces(b, '\n');
    law_pieces(a, '\n');
    assert(head =~= pieces(a, '\n').push(Seq::empty()));
    assert(head.drop_last() =~= pieces(a, '\n'));
    assert(all.last() == tail.last());
    assert(all.drop_last() =~= head.drop_last() + tail.drop_last());
    assert(lines(a.push('\n') + b) =~= lines(a.push('\n')) + lines(b));
}

/// A text without empty lines and without carriage returns, with a newline behind it: its
/// lines are what joins to it, and none of them is empty.
pub proof fn law_full_lines(s: Seq<char>)
    requires
        s.len() > 0,
        s[0] != '\n',
        s.last() != '\n',
        !s.contains('\r'),
        forall|i: int| 0 <= i < s.len() - 1 && #[trigger] s[i] == '\n' ==> s[i + 1] != '\n',
    ensures
        joined(lines(s.push('\n')), seq!['\n']) == s,
        forall|i: int|
            0 <= i < lines(s.push('\n')).len() ==> (#[trigger] lines(s.push('\n'))[i]).len() > 0,
{
    let t = s.push('\n');
    assert(t.drop_last() =~= s);
    assert forall|k: int| 0 <= k < t.len() implies t[k] != '\r' by {
        if k < s.len() {
            assert(s[k] != '\r');
        }
    }
    law_lines_joined(t);
    lemma_full_pieces(s);
    law_pieces(s, '\n');
    lemma_pieces_plain(s, '\n', '\r');
    let all = pieces(t, '\n');
    let head = pieces(s, '\n');
    assert(all.drop_last() =~= head);
    assert forall|i: int| 0 <= i < lines(t).len() implies (#[trigger] lines(t)[i]).len() > 0 by {
        assert(!head[i].contains('\r'));
        if head[i].len() > 0 {
            assert(head[i][head[i].len() - 1] != '\r');
        }
        assert(lines(t)[i] == without_return(head[i]));
    }
}

proof fn lemma_full_pieces(s: Seq<char>)
    requires
        s.len() > 0 ==> s[0] != '\n',
        forall|i: int| 0 <= i < s.len() - 1 && #[trigger] s[i] == '\n' ==> s[i + 1] != '\n',
    ensures
        pieces(s, '\n').len() > 0,
        forall|i: int|
            0 <= i < pieces(s, '\n').len() - 1 ==> (#[trigger] pieces(s, '\n')[i]).len() > 0,
        pieces(s, '\n').last().len() == 0 <==> s.len() == 0 || s.last() == '\n',
    decreases s.len(),
{
    if s.len() > 0 {
        let t = s.drop_last();
        assert forall|i: int| 0 <= i < t.len() - 1 && #[trigger] t[i] == '\n' implies t[i + 1]
            != '\n' by {
            assert(s[i] == '\n');
        }
        lemma_full_pieces(t);
        if s.last() == '\n' {
            if t.len() > 0 && t.last() == '\n' {
                assert(s[s.len() - 2] == '\n');
                assert(s[s.len() - 2 + 1] == '\n');
            }
        }
    }
}

/// The text of an optional string is there exactly where the string is, and is its own.
pub proof fn law_opt_text(s: Option<&str>)
    ensures
        s is None <==> opt_text(s) is None,
        s matches Some(t) ==> opt_text(s) == Some(t@),
{
}

/// The first piece ends where the text first occurs, and the others are the pieces of what
/// stands behind that; a text that does not occur leaves one piece.
pub proof fn law_split_first(s: Seq<char>, sep: Seq<char>)
    requires
        sep.len() > 0,
    ensures
        !has_part(s, sep) ==> split_on(s, sep) == seq![s],
        has_part(s, sep) ==> {
            let first = split_on(s, sep)[0];
            &&& occurs_at(s, sep, first.len() as int)
            &&& forall|j: int| 0 <= j < first.len() ==> !#[trigger] occurs_at(s, sep, j)
            &&& first == s.take(first.len() as int)
            &&& split_on(s, sep).drop_first() == split_on(s.skip((first.len() + sep.len()) as int), sep)
        },
    decreases s.len(),
{
    if s.len() == 0 {
        assert(split_on(s, sep) =~= seq![s]);
        if has_part(s, sep) {
            let at = choose|at: int| occurs_at(s, sep, at);
        }
    } else if occurs_at(s, sep, 0) {
        assert(has_part(s, sep));
        let rest = split_on(s.skip(sep.len() as int), sep);
        assert(split_on(s, sep).drop_first() =~= rest);
        assert(s.take(0) =~= Seq::<char>::empty());
        assert(s.skip((0 + sep.len()) as int) =~= s.skip(sep.len() as int));
    } else {
        let t = s.drop_first();
        let rest = split_on(t, sep);
        law_split_first(t, sep);
        lemma_split_prefix(t, sep);
        let all = split_on(s, sep);
        let first = seq![s[0]] + rest[0];
        assert(all == seq![first] + rest.drop_first());
        assert(all.drop_first() =~= rest.drop_first());
        assert forall|j: int| 0 < j implies (#[trigger] occurs_at(s, sep, j) <==> occurs_at(t, sep, j
            - 1)) by {
            if j + sep.len() <= s.len() {
                assert(s.subrange(j, j + sep.len()) =~= t.subrange(j - 1, j - 1 + sep.len()));
            }
        }
        if has_part(s, sep) {
            let at = choose|at: int| occurs_at(s, sep, at);
            assert(occurs_at(t, sep, at - 1));
            assert(has_part(t, sep));
            assert(occurs_at(s, sep, first.len() as int));
            assert(first =~= s.take(first.len() as int));
            assert(t.skip((rest[0].len() + sep.len()) as int) =~= s.skip(
                (first.len() + sep.len()) as int,
            ));
        } else {
            if has_part(t, sep) {
                let at = choose|at: int| occurs_at(t, sep, at);
                assert(occurs_at(s, sep, at + 1));
            }
            assert(rest[0] == t);
            assert(first =~= s);
            assert(all =~= seq![s]);
        }
    }
}

} // verus!
