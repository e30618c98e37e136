//! Values of rows, and the text by which a row is told from others.
use crate::database::DatabaseManager;
use crate::text::{
    chars_of, decimal, decimal_text, digit, join, joined, lemma_strs_empty, lemma_strs_push, same,
    strs,
};
use vstd::prelude::*;

verus! {

broadcast use {lemma_strs_push, lemma_strs_empty};

/// One value of a row. `None` is a value that is absent. A number with a fraction comes
/// as the text that shows it, the numbers of a vector as their bits, and a value of
/// another type as the text that shows it.
pub enum Cell {
    Utf8(Option<String>),
    Int64(Option<i64>),
    UInt32(Option<u32>),
    UInt64(Option<u64>),
    Boolean(Option<bool>),
    Float32(Option<String>),
    Vector(Option<Vec<Option<u32>>>),
    Other(Option<String>),
}

/// A character as it stands in a signature: a bar and a backslash have a backslash
/// before them.
pub open spec fn escaped_char(c: char) -> Seq<char> {
    if c == '|' || c == '\\' {
        seq!['\\', c]
    } else {
        seq![c]
    }
}

/// A text with each character as it stands in a signature.
pub open spec fn escaped_chars(s: Seq<char>) -> Seq<char>
    decreases s.len(),
{
    if s.len() == 0 {
        Seq::empty()
    } else {
        escaped_char(s[0]) + escaped_chars(s.drop_first())
    }
}

/// A text as it stands in a signature. The text that is written for an absent value has
/// a backslash before it.
pub open spec fn escaped(s: Seq<char>) -> Seq<char> {
    if s == "NULL"@ {
        seq!['\\'] + s
    } else {
        escaped_chars(s)
    }
}

/// A number with its sign.
pub open spec fn signed(n: int) -> Seq<char> {
    if n < 0 {
        seq!['-'] + decimal((-n) as nat)
    } else {
        decimal(n as nat)
    }
}

/// The texts of the numbers of a vector.
pub open spec fn number_texts(v: Seq<Option<u32>>) -> Seq<Seq<char>> {
    v.map_values(
        |n: Option<u32>|
            match n {
                Some(n) => decimal(n as nat),
                None => "NULL"@,
            },
    )
}

/// The text of a value.
pub open spec fn cell_text(cell: Cell) -> Seq<char> {
    match cell {
        Cell::Utf8(Some(t)) => escaped(t@),
        Cell::Int64(Some(n)) => signed(n as int),
        Cell::UInt32(Some(n)) => decimal(n as nat),
        Cell::UInt64(Some(n)) => decimal(n as nat),
        Cell::Boolean(Some(b)) => if b {
            "true"@
        } else {
            "false"@
        },
        Cell::Float32(Some(t)) => escaped(t@),
        Cell::Vector(Some(v)) => seq!['['] + joined(number_texts(v@), ","@) + seq![']'],
        Cell::Other(Some(t)) => escaped(t@),
        _ => "NULL"@,
    }
}

/// The texts of a row's values.
pub open spec fn row_texts(row: Seq<Cell>) -> Seq<Seq<char>> {
    row.map_values(|c: Cell| cell_text(c))
}

/// The text by which a row is told from others.
pub open spec fn signature(row: Seq<Cell>) -> Seq<char> {
    joined(row_texts(row), "||"@)
}

/// Whether two optional texts are the same.
pub open spec fn same_text(a: Option<String>, b: Option<String>) -> bool {
    match (a, b) {
        (Some(x), Some(y)) => x@ == y@,
        (None, None) => true,
        _ => false,
    }
}

/// Whether two values can stand in one column.
pub open spec fn same_kind(a: Cell, b: Cell) -> bool {
    match (a, b) {
        (Cell::Utf8(_), Cell::Utf8(_)) => true,
        (Cell::Int64(_), Cell::Int64(_)) => true,
        (Cell::UInt32(_), Cell::UInt32(_)) => true,
        (Cell::UInt64(_), Cell::UInt64(_)) => true,
        (Cell::Boolean(_), Cell::Boolean(_)) => true,
        (Cell::Float32(_), Cell::Float32(_)) => true,
        (Cell::Vector(_), Cell::Vector(_)) => true,
        (Cell::Other(_), Cell::Other(_)) => true,
        _ => false,
    }
}

/// Whether two values are the same.
pub open spec fn same_value(a: Cell, b: Cell) -> bool {
    match (a, b) {
        (Cell::Utf8(x), Cell::Utf8(y)) => same_text(x, y),
        (Cell::Int64(x), Cell::Int64(y)) => x == y,
        (Cell::UInt32(x), Cell::UInt32(y)) => x == y,
        (Cell::UInt64(x), Cell::UInt64(y)) => x == y,
        (Cell::Boolean(x), Cell::Boolean(y)) => x == y,
        (Cell::Float32(x), Cell::Float32(y)) => same_text(x, y),
        (Cell::Vector(x), Cell::Vector(y)) => match (x, y) {
            (Some(v), Some(w)) => v@ == w@,
            (None, None) => true,
            _ => false,
        },
        (Cell::Other(x), Cell::Other(y)) => same_text(x, y),
        _ => false,
    }
}

/// Whether two rows can stand in one table.
pub open spec fn same_columns(a: Seq<Cell>, b: Seq<Cell>) -> bool {
    &&& a.len() == b.len()
    &&& forall|i: int| 0 <= i < a.len() ==> same_kind(#[trigger] a[i], b[i])
}

/// Whether two rows are the same in every column.
pub open spec fn same_row(a: Seq<Cell>, b: Seq<Cell>) -> bool {
    &&& a.len() == b.len()
    &&& forall|i: int| 0 <= i < a.len() ==> same_value(#[trigger] a[i], b[i])
}

fn escape_text(s: &str) -> (r: String)
    ensures
        r@ == escaped(s@),
{
    let mut out: String = String::new();
    if same(s, "NULL") {
        out.push('\\');
        out.append(s);
        proof {
            assert(out@ =~= escaped(s@));
        }
        return out;
    }
    let cs = chars_of(s);
    let mut i: usize = 0;
    proof {
        assert(cs@.skip(0) =~= cs@);
        assert(out@ + escaped_chars(cs@.skip(0)) =~= escaped_chars(cs@));
    }
    while i < cs.len()
        invariant
            i <= cs@.len(),
            out@ + escaped_chars(cs@.skip(i as int)) == escaped_chars(cs@),
        decreases cs@.len() - i,
    {
        let ghost was = out@;
        let ghost rest = cs@.skip(i as int);
        let c = cs[i];
        if c == '|' || c == '\\' {
            out.push('\\');
        }
        out.push(c);
        proof {
            assert(rest[0] == c);
            assert(rest.drop_first() =~= cs@.skip(i + 1));
            assert(out@ =~= was + escaped_char(c));
            assert(out@ + escaped_chars(cs@.skip(i + 1)) =~= was + escaped_chars(rest));
        }
        i += 1;
    }
    proof {
        assert(out@ =~= escaped_chars(cs@));
    }
    out
}

fn signed_text(n: i64) -> (r: String)
    ensures
        r@ == signed(n as int),
{
    if n >= 0 {
        return decimal_text(n as u64);
    }
    let mut out: String = String::new();
    out.push('-');
    let size: u64 = (-(n + 1)) as u64 + 1;
    out.append(decimal_text(size).as_str());
    proof {
        assert(out@ =~= signed(n as int));
    }
    out
}

fn vector_text(v: &Vec<Option<u32>>) -> (r: String)
    ensures
        r@ == seq!['['] + joined(number_texts(v@), ","@) + seq![']'],
{
    let mut parts: Vec<String> = Vec::new();
    let ghost all = number_texts(v@);
    let mut i: usize = 0;
    while i < v.len()
        invariant
            i <= v@.len(),
            all == number_texts(v@),
            strs(parts@) == all.take(i as int),
        decreases v@.len() - i,
    {
        let part: String = match v[i] {
            Some(n) => decimal_text(n as u64),
            None => "NULL".to_owned(),
        };
        proof {
            assert(all[i as int] == part@);
            assert(all.take(i + 1) =~= all.take(i as int).push(part@));
        }
        parts.push(part);
        i += 1;
    }
    proof {
        assert(all.take(i as int) =~= all);
    }
    let mut out: String = String::new();
    out.push('[');
    out.append(join(&parts, ",").as_str());
    out.push(']');
    proof {
        assert(out@ =~= seq!['['] + joined(all, ","@) + seq![']']);
    }
    out
}

fn text_of_cell(cell: &Cell) -> (r: String)
    ensures
        r@ == cell_text(*cell),
{
    match cell {
        Cell::Utf8(Some(t)) => escape_text(t.as_str()),
        Cell::Int64(Some(n)) => signed_text(*n),
        Cell::UInt32(Some(n)) => decimal_text(*n as u64),
        Cell::UInt64(Some(n)) => decimal_text(*n),
        Cell::Boolean(Some(b)) => if *b {
            "true".to_owned()
        } else {
            "false".to_owned()
        },
        Cell::Float32(Some(t)) => escape_text(t.as_str()),
        Cell::Vector(Some(v)) => vector_text(v),
        Cell::Other(Some(t)) => escape_text(t.as_str()),
        _ => "NULL".to_owned(),
    }
}

impl DatabaseManager {
    /// The text by which a row is told from others: the texts of its values, with
    /// a separator between them.
    pub fn create_row_signature(&self, row: &Vec<Cell>) -> (r: String)
        ensures
            r@ == signature(row@),
    {
        let mut parts: Vec<String> = Vec::new();
        let mut i: usize = 0;
        while i < row.len()
            invariant
                i <= row@.len(),
                strs(parts@) == row_texts(row@).take(i as int),
            decreases row@.len() - i,
        {
            parts.push(text_of_cell(&row[i]));
            i += 1;
            proof {
                assert(strs(parts@) =~= row_texts(row@).take(i as int));
            }
        }
        proof {
            assert(row_texts(row@).take(i as int) =~= row_texts(row@));
        }
        join(&parts, "||")
    }
}

/// A text in which a mark stands only behind a backslash.
spec fn sealed(s: Seq<char>, mark: char) -> bool
    decreases s.len(),
{
    if s.len() == 0 {
        true
    } else if s[0] == '\\' {
        s.len() >= 2 && sealed(s.skip(2), mark)
    } else {
        s[0] != mark && sealed(s.drop_first(), mark)
    }
}

/// What can follow a sealed text: nothing, or the mark.
spec fn marked_off(s: Seq<char>, mark: char) -> bool {
    s.len() == 0 || s[0] == mark
}

/// Two sealed texts with what follows them read the same only where they are the same.
proof fn lemma_sealed_prefix(x: Seq<char>, y: Seq<char>, t: Seq<char>, u: Seq<char>, mark: char)
    requires
        mark != '\\',
        sealed(x, mark),
        sealed(y, mark),
        marked_off(t, mark),
        marked_off(u, mark),
        x + t == y + u,
    ensures
        x == y,
        t == u,
    decreases x.len(),
{
    let all = x + t;
    if x.len() == 0 || y.len() == 0 {
        if x.len() == 0 && y.len() > 0 {
            assert(all[0] == y[0]);
            assert(all =~= t);
        }
        if y.len() == 0 && x.len() > 0 {
            assert(all[0] == x[0]);
            assert(all =~= u);
        }
        assert(x =~= y);
        assert(t =~= (x + t));
        assert(u =~= (y + u));
    } else {
        assert(all[0] == x[0] && all[0] == y[0]);
        let n: int = if x[0] == '\\' {
            2
        } else {
            1
        };
        assert(x.skip(1) =~= x.drop_first());
        assert(y.skip(1) =~= y.drop_first());
        assert(x.skip(n) + t =~= all.skip(n));
        assert(y.skip(n) + u =~= all.skip(n));
        lemma_sealed_prefix(x.skip(n), y.skip(n), t, u, mark);
        assert forall|i: int| 0 <= i < n implies x[i] == y[i] by {
            assert(all[i] == x[i]);
            assert(all[i] == y[i]);
        }
        assert(x =~= x.take(n) + x.skip(n));
        assert(y =~= y.take(n) + y.skip(n));
        assert(x.take(n) =~= y.take(n));
    }
}

/// A joined list begins with its first text.
proof fn lemma_joined_first(parts: Seq<Seq<char>>, sep: Seq<char>)
    requires
        parts.len() >= 2,
    ensures
        joined(parts, sep) == parts[0] + (sep + joined(parts.drop_first(), sep)),
    decreases parts.len(),
{
    if parts.len() == 2 {
        assert(joined(parts.drop_last(), sep) == parts[0]);
        assert(joined(parts.drop_first(), sep) == parts[1]);
        assert(joined(parts, sep) =~= parts[0] + (sep + joined(parts.drop_first(), sep)));
    } else {
        let front = parts.drop_last();
        lemma_joined_first(front, sep);
        assert(front.drop_first() =~= parts.drop_first().drop_last());
        assert(parts.drop_first().last() == parts.last());
        assert(joined(parts, sep) =~= parts[0] + (sep + joined(parts.drop_first(), sep)));
    }
}

/// Two lists of sealed texts that read the same when joined are the same, where they have
/// one length or none of their texts is empty.
proof fn lemma_joined_apart(a: Seq<Seq<char>>, b: Seq<Seq<char>>, sep: Seq<char>, mark: char)
    requires
        mark != '\\',
        sep.len() > 0,
        sep[0] == mark,
        forall|i: int| 0 <= i < a.len() ==> sealed(#[trigger] a[i], mark),
        forall|i: int| 0 <= i < b.len() ==> sealed(#[trigger] b[i], mark),
        a.len() == b.len() || ((forall|i: int| 0 <= i < a.len() ==> (#[trigger] a[i]).len() > 0) && (
        forall|i: int| 0 <= i < b.len() ==> (#[trigger] b[i]).len() > 0)),
        joined(a, sep) == joined(b, sep),
    ensures
        a == b,
    decreases a.len(),
{
    if a.len() == 0 || b.len() == 0 {
        if a.len() > 0 {
            lemma_joined_starts(a, sep);
            assert(a[0].len() > 0);
            assert(joined(b, sep).len() == 0);
        }
        if b.len() > 0 {
            lemma_joined_starts(b, sep);
            assert(b[0].len() > 0);
            assert(joined(a, sep).len() == 0);
        }
        assert(a =~= b);
    } else {
        lemma_joined_starts(a, sep);
        lemma_joined_starts(b, sep);
        let t = after_first(a, sep);
        let u = after_first(b, sep);
        lemma_sealed_prefix(a[0], b[0], t, u, mark);
        let ra = a.drop_first();
        let rb = b.drop_first();
        if a.len() >= 2 && b.len() >= 2 {
            assert(joined(ra, sep) =~= t.skip(sep.len() as int));
            assert(joined(rb, sep) =~= u.skip(sep.len() as int));
            assert forall|i: int| 0 <= i < ra.len() implies sealed(#[trigger] ra[i], mark) by {
                assert(ra[i] == a[i + 1]);
            }
            assert forall|i: int| 0 <= i < rb.len() implies sealed(#[trigger] rb[i], mark) by {
                assert(rb[i] == b[i + 1]);
            }
            if a.len() != b.len() {
                assert forall|i: int| 0 <= i < ra.len() implies (#[trigger] ra[i]).len() > 0 by {
                    assert(ra[i] == a[i + 1]);
                }
                assert forall|i: int| 0 <= i < rb.len() implies (#[trigger] rb[i]).len() > 0 by {
                    assert(rb[i] == b[i + 1]);
                }
            }
            lemma_joined_apart(ra, rb, sep, mark);
        } else {
            assert(t.len() == 0 <==> a.len() == 1);
            assert(u.len() == 0 <==> b.len() == 1);
            assert(ra =~= rb);
        }
        assert(a =~= seq![a[0]] + ra);
        assert(b =~= seq![b[0]] + rb);
    }
}

/// What stands behind the first text of a joined list.
spec fn after_first(parts: Seq<Seq<char>>, sep: Seq<char>) -> Seq<char> {
    if parts.len() >= 2 {
        sep + joined(parts.drop_first(), sep)
    } else {
        Seq::empty()
    }
}

proof fn lemma_joined_starts(parts: Seq<Seq<char>>, sep: Seq<char>)
    requires
        parts.len() > 0,
    ensures
        joined(parts, sep) == parts[0] + after_first(parts, sep),
{
    if parts.len() >= 2 {
        lemma_joined_first(parts, sep);
    } else {
        assert(parts[0] + after_first(parts, sep) =~= parts[0]);
    }
}

/// A text without the mark and without a backslash is sealed.
proof fn lemma_plain_is_sealed(s: Seq<char>, mark: char)
    requires
        forall|i: int| 0 <= i < s.len() ==> #[trigger] s[i] != mark && s[i] != '\\',
    ensures
        sealed(s, mark),
    decreases s.len(),
{
    if s.len() > 0 {
        let rest = s.drop_first();
        assert(s[0] != mark);
        assert forall|i: int| 0 <= i < rest.len() implies #[trigger] rest[i] != mark && rest[i]
            != '\\' by {
            assert(rest[i] == s[i + 1]);
        }
        lemma_plain_is_sealed(rest, mark);
    }
}

proof fn lemma_escaped_is_sealed(s: Seq<char>)
    ensures
        sealed(escaped_chars(s), '|'),
    decreases s.len(),
{
    if s.len() > 0 {
        let rest = escaped_chars(s.drop_first());
        let all = escaped_chars(s);
        lemma_escaped_is_sealed(s.drop_first());
        if escaped_char(s[0]).len() == 2 {
            assert(all[0] == '\\');
            assert(all.skip(2) =~= rest);
        } else {
            assert(all[0] == s[0]);
            assert(all.drop_first() =~= rest);
        }
    }
}

proof fn lemma_escaped_chars_apart(a: Seq<char>, b: Seq<char>)
    requires
        escaped_chars(a) == escaped_chars(b),
    ensures
        a == b,
    decreases a.len(),
{
    let e = escaped_chars(a);
    if a.len() == 0 || b.len() == 0 {
        if a.len() > 0 {
            assert(e[0] == escaped_char(a[0])[0]);
        }
        if b.len() > 0 {
            assert(e[0] == escaped_char(b[0])[0]);
        }
        assert(a =~= b);
    } else {
        let x = escaped_char(a[0]);
        let y = escaped_char(b[0]);
        assert(e[0] == x[0] && e[0] == y[0]);
        if x.len() == 2 {
            assert(e[1] == x[1]);
        }
        if y.len() == 2 {
            assert(e[1] == y[1]);
        }
        assert(x == y && a[0] == b[0]);
        assert(escaped_chars(a.drop_first()) =~= e.skip(x.len() as int));
        assert(escaped_chars(b.drop_first()) =~= e.skip(y.len() as int));
        lemma_escaped_chars_apart(a.drop_first(), b.drop_first());
        assert(a =~= seq![a[0]] + a.drop_first());
        assert(b =~= seq![b[0]] + b.drop_first());
    }
}

/// A text without a bar and without a backslash stands in a signature as it is, unless it
/// is the one that is written for an absent value.
pub proof fn law_ordinary_text_is_kept(s: Seq<char>)
    requires
        forall|i: int| 0 <= i < s.len() ==> #[trigger] s[i] != '|' && s[i] != '\\',
        s != "NULL"@,
    ensures
        escaped(s) == s,
{
    lemma_plain_is_kept(s);
}

proof fn lemma_plain_is_kept(s: Seq<char>)
    requires
        forall|i: int| 0 <= i < s.len() ==> #[trigger] s[i] != '|' && s[i] != '\\',
    ensures
        escaped_chars(s) == s,
    decreases s.len(),
{
    if s.len() > 0 {
        let rest = s.drop_first();
        assert forall|i: int| 0 <= i < rest.len() implies #[trigger] rest[i] != '|' && rest[i]
            != '\\' by {
            assert(rest[i] == s[i + 1]);
        }
        assert(s[0] != '|' && s[0] != '\\');
        lemma_plain_is_kept(rest);
        assert(escaped_chars(s) =~= s);
    }
}

/// Escaped texts are told apart, also from an absent value.
proof fn lemma_escaped_apart(a: Seq<char>, b: Seq<char>)
    ensures
        escaped(a) == escaped(b) ==> a == b,
        escaped(a) != "NULL"@,
        sealed(escaped(a), '|'),
{
    reveal_strlit("NULL");
    let null = "NULL"@;
    lemma_plain_is_kept(null);
    assert forall|s: Seq<char>| #[trigger] escaped_chars(s) == null implies s == null by {
        lemma_escaped_chars_apart(s, null);
    }
    let e = seq!['\\'] + null;
    assert forall|s: Seq<char>| #[trigger] escaped_chars(s) != e by {
        if escaped_chars(s) == e {
            if s.len() > 0 {
                let x = escaped_char(s[0]);
                assert(e[0] == x[0]);
                assert(x.len() == 2);
                assert(e[1] == x[1]);
                assert(e[1] == 'N');
            }
        }
    }
    if escaped(a) == escaped(b) && a != null && b != null {
        lemma_escaped_chars_apart(a, b);
    }
    assert(e[0] == '\\' && null[0] == 'N');
    lemma_escaped_is_sealed(a);
    if a == null {
        let rest = e.skip(2);
        assert(rest =~= seq!['U', 'L', 'L']);
        lemma_plain_is_sealed(rest, '|');
        assert(sealed(e, '|'));
    }
}

/// A decimal number has digits only, and at least one.
proof fn lemma_decimal_digits(n: nat)
    ensures
        decimal(n).len() > 0,
        forall|i: int| 0 <= i < decimal(n).len() ==> '0' <= #[trigger] decimal(n)[i] <= '9',
    decreases n,
{
    if n >= 10 {
        lemma_decimal_digits(n / 10);
        assert forall|i: int| 0 <= i < decimal(n).len() implies '0' <= #[trigger] decimal(n)[i]
            <= '9' by {
            if i < decimal(n / 10).len() {
                assert(decimal(n)[i] == decimal(n / 10)[i]);
            }
        }
    }
}

proof fn lemma_decimal_apart(m: nat, n: nat)
    requires
        decimal(m) == decimal(n),
    ensures
        m == n,
    decreases m,
{
    lemma_decimal_digits(m / 10);
    lemma_decimal_digits(n / 10);
    let d = decimal(m);
    if m >= 10 && n >= 10 {
        assert(d.drop_last() =~= decimal(m / 10));
        assert(d.drop_last() =~= decimal(n / 10));
        lemma_decimal_apart(m / 10, n / 10);
    }
    assert(d.last() == digit(m % 10));
    assert(d.last() == digit(n % 10));
    assert(m % 10 == n % 10);
    if m < 10 && n >= 10 {
        assert(d.len() >= 2);
    }
    if n < 10 && m >= 10 {
        assert(d.len() >= 2);
    }
}

/// Decimal numbers hold neither a mark nor a backslash, and are no absent value.
proof fn lemma_decimal_plain(n: nat)
    ensures
        sealed(decimal(n), '|'),
        sealed(decimal(n), ','),
        sealed("NULL"@, '|'),
        sealed("NULL"@, ','),
        decimal(n) != "NULL"@,
        "NULL"@.len() > 0,
        decimal(n).len() > 0,
{
    reveal_strlit("NULL");
    lemma_decimal_digits(n);
    assert forall|i: int| 0 <= i < decimal(n).len() implies #[trigger] decimal(n)[i] != '|'
        && decimal(n)[i] != '\\' && decimal(n)[i] != ',' by {
        assert('0' <= decimal(n)[i] <= '9');
    }
    lemma_plain_is_sealed(decimal(n), '|');
    lemma_plain_is_sealed(decimal(n), ',');
    lemma_plain_is_sealed("NULL"@, '|');
    lemma_plain_is_sealed("NULL"@, ',');
    assert('0' <= decimal(n)[0] <= '9');
    assert("NULL"@[0] == 'N');
}

proof fn lemma_signed(m: int, n: int)
    ensures
        sealed(signed(m), '|'),
        signed(m) != "NULL"@,
        signed(m) == signed(n) ==> m == n,
{
    reveal_strlit("NULL");
    lemma_decimal_plain(m as nat);
    lemma_decimal_digits(m as nat);
    lemma_decimal_digits(n as nat);
    lemma_decimal_plain((-m) as nat);
    lemma_decimal_digits((-m) as nat);
    lemma_decimal_digits((-n) as nat);
    if m < 0 {
        assert(signed(m)[0] == '-');
        assert(signed(m).drop_first() =~= decimal((-m) as nat));
        assert(sealed(signed(m), '|'));
    } else {
        assert('0' <= signed(m)[0] <= '9');
    }
    if n < 0 {
        assert(signed(n)[0] == '-');
        assert(signed(n).drop_first() =~= decimal((-n) as nat));
    } else {
        assert('0' <= signed(n)[0] <= '9');
    }
    if signed(m) == signed(n) {
        if m < 0 {
            lemma_decimal_apart((-m) as nat, (-n) as nat);
        } else {
            lemma_decimal_apart(m as nat, n as nat);
        }
    }
    assert("NULL"@[0] == 'N');
}

/// The texts of a vector's numbers.
proof fn lemma_number_texts(v: Seq<Option<u32>>)
    ensures
        forall|i: int|
            0 <= i < v.len() ==> sealed(#[trigger] number_texts(v)[i], ',') && sealed(
                number_texts(v)[i],
                '|',
            ) && number_texts(v)[i].len() > 0,
{
    assert forall|i: int| 0 <= i < v.len() implies sealed(#[trigger] number_texts(v)[i], ',')
        && sealed(number_texts(v)[i], '|') && number_texts(v)[i].len() > 0 by {
        match v[i] {
            Some(n) => lemma_decimal_plain(n as nat),
            None => lemma_decimal_plain(0),
        }
    }
}

/// Two vectors with the same text are the same.
proof fn lemma_vectors_apart(v: Seq<Option<u32>>, w: Seq<Option<u32>>)
    requires
        joined(number_texts(v), ","@) == joined(number_texts(w), ","@),
    ensures
        v == w,
{
    reveal_strlit(",");
    let a = number_texts(v);
    let b = number_texts(w);
    lemma_number_texts(v);
    lemma_number_texts(w);
    lemma_joined_apart(a, b, ","@, ',');
    assert(v.len() == w.len());
    assert forall|i: int| 0 <= i < v.len() implies v[i] == w[i] by {
        assert(a[i] == b[i]);
        match (v[i], w[i]) {
            (Some(m), Some(n)) => lemma_decimal_apart(m as nat, n as nat),
            (Some(m), None) => lemma_decimal_plain(m as nat),
            (None, Some(n)) => lemma_decimal_plain(n as nat),
            (None, None) => {},
        }
    }
    assert(v =~= w);
}

/// A text that is sealed from a mark stays so behind a text without it.
proof fn lemma_sealed_joined(s: Seq<char>, t: Seq<char>, mark: char)
    requires
        sealed(s, mark),
        sealed(t, mark),
    ensures
        sealed(s + t, mark),
    decreases s.len(),
{
    if s.len() == 0 {
        assert(s + t =~= t);
    } else if s[0] == '\\' {
        lemma_sealed_joined(s.skip(2), t, mark);
        assert((s + t).skip(2) =~= s.skip(2) + t);
    } else {
        lemma_sealed_joined(s.drop_first(), t, mark);
        assert((s + t).drop_first() =~= s.drop_first() + t);
    }
}

proof fn lemma_numbers_sealed(parts: Seq<Seq<char>>)
    requires
        forall|i: int| 0 <= i < parts.len() ==> sealed(#[trigger] parts[i], '|'),
    ensures
        sealed(joined(parts, ","@), '|'),
    decreases parts.len(),
{
    reveal_strlit(",");
    if parts.len() >= 2 {
        let front = parts.drop_last();
        assert forall|i: int| 0 <= i < front.len() implies sealed(#[trigger] front[i], '|') by {
            assert(front[i] == parts[i]);
        }
        lemma_numbers_sealed(front);
        lemma_plain_is_sealed(","@, '|');
        lemma_sealed_joined(joined(front, ","@), ","@, '|');
        assert(sealed(parts[parts.len() - 1], '|'));
        lemma_sealed_joined(joined(front, ","@) + ","@, parts.last(), '|');
    }
}

/// The text of a value can be told from what follows it.
proof fn lemma_cell_sealed(cell: Cell)
    ensures
        sealed(cell_text(cell), '|'),
{
    lemma_decimal_plain(0);
    match cell {
        Cell::Utf8(Some(t)) => lemma_escaped_apart(t@, t@),
        Cell::Int64(Some(n)) => lemma_signed(n as int, n as int),
        Cell::UInt32(Some(n)) => lemma_decimal_plain(n as nat),
        Cell::UInt64(Some(n)) => lemma_decimal_plain(n as nat),
        Cell::Boolean(Some(b)) => {
            reveal_strlit("true");
            reveal_strlit("false");
            lemma_plain_is_sealed("true"@, '|');
            lemma_plain_is_sealed("false"@, '|');
        },
        Cell::Float32(Some(t)) => lemma_escaped_apart(t@, t@),
        Cell::Vector(Some(v)) => {
            let parts = number_texts(v@);
            lemma_number_texts(v@);
            lemma_numbers_sealed(parts);
            let open = seq!['['];
            let close = seq![']'];
            lemma_plain_is_sealed(open, '|');
            lemma_plain_is_sealed(close, '|');
            lemma_sealed_joined(open, joined(parts, ","@), '|');
            lemma_sealed_joined(open + joined(parts, ","@), close, '|');
        },
        Cell::Other(Some(t)) => lemma_escaped_apart(t@, t@),
        _ => {},
    }
}

proof fn lemma_texts_apart(x: Option<String>, y: Option<String>)
    ensures
        match (x, y) {
            (Some(s), Some(t)) => escaped(s@) == escaped(t@) <==> s@ == t@,
            (Some(s), None) => escaped(s@) != "NULL"@,
            (None, Some(t)) => escaped(t@) != "NULL"@,
            (None, None) => true,
        },
{
    match (x, y) {
        (Some(s), Some(t)) => lemma_escaped_apart(s@, t@),
        (Some(s), None) => lemma_escaped_apart(s@, s@),
        (None, Some(t)) => lemma_escaped_apart(t@, t@),
        (None, None) => {},
    }
}

/// Two values of one column have one text exactly where they are the same.
proof fn lemma_cells_apart(a: Cell, b: Cell)
    requires
        same_kind(a, b),
    ensures
        cell_text(a) == cell_text(b) <==> same_value(a, b),
{
    reveal_strlit("NULL");
    reveal_strlit("true");
    reveal_strlit("false");
    match (a, b) {
        (Cell::Utf8(x), Cell::Utf8(y)) => lemma_texts_apart(x, y),
        (Cell::Float32(x), Cell::Float32(y)) => lemma_texts_apart(x, y),
        (Cell::Other(x), Cell::Other(y)) => lemma_texts_apart(x, y),
        (Cell::Int64(x), Cell::Int64(y)) => {
            if x is Some && y is Some {
                lemma_signed(x->0 as int, y->0 as int);
            } else if x is Some {
                lemma_signed(x->0 as int, 0);
            } else if y is Some {
                lemma_signed(y->0 as int, 0);
            }
        },
        (Cell::UInt32(x), Cell::UInt32(y)) => {
            if x is Some {
                lemma_decimal_plain(x->0 as nat);
            }
            if y is Some {
                lemma_decimal_plain(y->0 as nat);
            }
            if cell_text(a) == cell_text(b) && x is Some && y is Some {
                lemma_decimal_apart(x->0 as nat, y->0 as nat);
            }
        },
        (Cell::UInt64(x), Cell::UInt64(y)) => {
            if x is Some {
                lemma_decimal_plain(x->0 as nat);
            }
            if y is Some {
                lemma_decimal_plain(y->0 as nat);
            }
            if cell_text(a) == cell_text(b) && x is Some && y is Some {
                lemma_decimal_apart(x->0 as nat, y->0 as nat);
            }
        },
        (Cell::Boolean(x), Cell::Boolean(y)) => {
            assert("NULL"@[0] == 'N' && "true"@[0] == 't' && "false"@[0] == 'f');
        },
        (Cell::Vector(x), Cell::Vector(y)) => {
            assert("NULL"@[0] == 'N');
            if x is Some {
                assert(cell_text(a)[0] == '[');
            }
            if y is Some {
                assert(cell_text(b)[0] == '[');
            }
            if cell_text(a) == cell_text(b) && x is Some && y is Some {
                let p = joined(number_texts(x->0@), ","@);
                let q = joined(number_texts(y->0@), ","@);
                assert(p =~= cell_text(a).subrange(1, cell_text(a).len() - 1));
                assert(q =~= cell_text(b).subrange(1, cell_text(b).len() - 1));
                lemma_vectors_apart(x->0@, y->0@);
            }
        },
        _ => {},
    }
}

/// Two rows of one table have one signature exactly where they are the same in every
/// column.
pub proof fn law_signature_tells_rows_apart(a: Seq<Cell>, b: Seq<Cell>)
    requires
        same_columns(a, b),
    ensures
        signature(a) == signature(b) <==> same_row(a, b),
{
    reveal_strlit("||");
    let x = row_texts(a);
    let y = row_texts(b);
    assert forall|i: int| 0 <= i < x.len() implies sealed(#[trigger] x[i], '|') by {
        lemma_cell_sealed(a[i]);
    }
    assert forall|i: int| 0 <= i < y.len() implies sealed(#[trigger] y[i], '|') by {
        lemma_cell_sealed(b[i]);
    }
    if signature(a) == signature(b) {
        lemma_joined_apart(x, y, "||"@, '|');
        assert forall|i: int| 0 <= i < a.len() implies same_value(#[trigger] a[i], b[i]) by {
            assert(x[i] == y[i]);
            lemma_cells_apart(a[i], b[i]);
        }
    }
    if same_row(a, b) {
        assert forall|i: int| 0 <= i < a.len() implies x[i] == y[i] by {
            lemma_cells_apart(a[i], b[i]);
        }
        assert(x =~= y);
    }
}

/// A text stands in a signature character by character: a bar and a backslash get a backslash
/// before them, and any other character stays. Only the text that is written for an absent
/// value gets a backslash before it.
pub proof fn law_escaped(c: char, s: Seq<char>)
    ensures
        escaped(Seq::<char>::empty()).len() == 0,
        escaped(seq!['N', 'U', 'L', 'L']) == seq!['\\', 'N', 'U', 'L', 'L'],
        escaped_chars(Seq::<char>::empty()).len() == 0,
        c == '|' || c == '\\' ==> escaped_chars(seq![c] + s) == seq!['\\', c] + escaped_chars(s),
        c != '|' && c != '\\' ==> escaped_chars(seq![c] + s) == seq![c] + escaped_chars(s),
        s != seq!['N', 'U', 'L', 'L'] ==> escaped(s) == escaped_chars(s),
{
    reveal_strlit("NULL");
    assert("NULL"@ =~= seq!['N', 'U', 'L', 'L']);
    assert((seq![c] + s).drop_first() =~= s);
    assert(escaped(seq!['N', 'U', 'L', 'L']) =~= seq!['\\', 'N', 'U', 'L', 'L']);
    assert(Seq::<char>::empty() != "NULL"@) by {
        assert("NULL"@.len() == 4);
    }
}

/// The text of a value, by its kind: text is escaped, numbers are decimal with their sign,
/// truth values are `true` and `false`, the numbers of a vector stand between square brackets
/// with commas between them, and what is absent is `NULL`.
pub proof fn law_cell_text(cell: Cell)
    ensures
        match cell {
            Cell::Utf8(Some(t)) => cell_text(cell) == escaped(t@),
            Cell::Float32(Some(t)) => cell_text(cell) == escaped(t@),
            Cell::Other(Some(t)) => cell_text(cell) == escaped(t@),
            Cell::Int64(Some(n)) => if n < 0 {
                cell_text(cell) == seq!['-'] + decimal((-n) as nat)
            } else {
                cell_text(cell) == decimal(n as nat)
            },
            Cell::UInt32(Some(n)) => cell_text(cell) == decimal(n as nat),
            Cell::UInt64(Some(n)) => cell_text(cell) == decimal(n as nat),
            Cell::Boolean(Some(b)) => cell_text(cell) == if b {
                seq!['t', 'r', 'u', 'e']
            } else {
                seq!['f', 'a', 'l', 's', 'e']
            },
            Cell::Vector(Some(v)) => cell_text(cell) == seq!['['] + joined(number_texts(v@), seq![','])
                + seq![']'],
            _ => cell_text(cell) == seq!['N', 'U', 'L', 'L'],
        },
{
    reveal_strlit("NULL");
    reveal_strlit("true");
    reveal_strlit("false");
    reveal_strlit(",");
    assert("NULL"@ =~= seq!['N', 'U', 'L', 'L']);
    assert("true"@ =~= seq!['t', 'r', 'u', 'e']);
    assert("false"@ =~= seq!['f', 'a', 'l', 's', 'e']);
    assert(","@ =~= seq![',']);
}

/// The texts of a vector's numbers: each in decimal, and `NULL` where it is absent.
pub proof fn law_number_texts(v: Seq<Option<u32>>, i: int)
    requires
        0 <= i < v.len(),
    ensures
        number_texts(v).len() == v.len(),
        v[i] matches Some(n) ==> number_texts(v)[i] == decimal(n as nat),
        v[i] is None ==> number_texts(v)[i] == seq!['N', 'U', 'L', 'L'],
{
    reveal_strlit("NULL");
    assert("NULL"@ =~= seq!['N', 'U', 'L', 'L']);
}

/// The signature of a row is the texts of all its values in their order, with two bars between
/// neighbours.
pub proof fn law_signature(row: Seq<Cell>, cell: Cell)
    ensures
        signature(Seq::<Cell>::empty()).len() == 0,
        signature(seq![cell]) == cell_text(cell),
        row.len() > 0 ==> signature(row.push(cell)) == signature(row) + seq!['|', '|'] + cell_text(cell),
{
    reveal_strlit("||");
    assert("||"@ =~= seq!['|', '|']);
    assert(row_texts(seq![cell]) =~= seq![cell_text(cell)]);
    assert(row_texts(row.push(cell)) =~= row_texts(row).push(cell_text(cell)));
    assert(row_texts(row).push(cell_text(cell)).drop_last() =~= row_texts(row));
}

} // verus!
