//! Commits: ranges of them, their metadata, and the text of their diffs.
use crate::tags::{parse_commit_message_tags, tags_of_lines, TagMap};
use crate::text::{
    contains_part, decimal, decimal_text, has_part, joined, law_joined_lists, law_lines,
    law_split_first, law_split_on, lines, lines_of, lossy_text, occurs_at, split_on, split_text, strs,
    text_from_bytes,
};
use vstd::prelude::*;

verus! {

/// The most commits that one range may hold.
pub const MAX_COMMITS: usize = 10_000_000;

/// What is wrong with a range of commits.
pub enum RangeError {
    /// It has more than one separator.
    Invalid { range: String },
    /// It holds more commits than `MAX_COMMITS`.
    TooLarge { range: String },
}

/// The commits reachable from `to`, without those reachable from `hidden`.
pub struct CommitRange {
    pub to: String,
    pub hidden: Option<String>,
}

/// Whether a text can be a range: `REF`, or `A..B` with one separator.
pub open spec fn is_range(range: Seq<char>) -> bool {
    !has_part(range, ".."@) || split_on(range, ".."@).len() == 2
}

/// The end of a range.
pub open spec fn range_to(range: Seq<char>) -> Seq<char> {
    if has_part(range, ".."@) {
        split_on(range, ".."@)[1]
    } else {
        range
    }
}

/// The start of a range: the commits reachable from it are left out.
pub open spec fn range_from(range: Seq<char>) -> Seq<char> {
    if has_part(range, ".."@) {
        split_on(range, ".."@)[0]
    } else {
        Seq::empty()
    }
}

/// Reads a range of commits. `REF` and `..REF` hide nothing.
pub fn parse_commit_range(range: &str) -> (r: Result<CommitRange, RangeError>)
    ensures
        match r {
            Ok(c) => {
                &&& is_range(range@)
                &&& c.to@ == range_to(range@)
                &&& match c.hidden {
                    Some(h) => h@ == range_from(range@) && h@.len() > 0,
                    None => range_from(range@).len() == 0,
                }
            },
            Err(RangeError::Invalid { range: text }) => !is_range(range@) && text@ == range@,
            Err(RangeError::TooLarge { .. }) => false,
        },
{
    proof {
        reveal_strlit("..");
    }
    if contains_part(range, "..") {
        let parts = split_text(range, "..");
        if parts.len() != 2 {
            return Err(RangeError::Invalid { range: range.to_owned() });
        }
        assert(strs(parts@)[0] == parts@[0]@ && strs(parts@)[1] == parts@[1]@);
        let hidden = if parts[0].as_str().is_empty() {
            None
        } else {
            Some(parts[0].clone())
        };
        Ok(CommitRange { to: parts[1].clone(), hidden })
    } else {
        Ok(CommitRange { to: range.to_owned(), hidden: None })
    }
}

/// The commits of a range, oldest first, from a walk that gives the newest first. A text
/// that is no range has none.
pub fn list_shas_in_range(range: &str, walk: Vec<String>) -> (r: Result<Vec<String>, RangeError>)
    ensures
        match r {
            Ok(shas) => is_range(range@) && walk@.len() <= MAX_COMMITS && shas@ == walk@.reverse(),
            Err(RangeError::Invalid { range: text }) => !is_range(range@) && text@ == range@,
            Err(RangeError::TooLarge { range: text }) => is_range(range@) && walk@.len()
                > MAX_COMMITS && text@ == range@,
        },
        r is Ok <==> is_range(range@) && walk@.len() <= 10_000_000,
        r matches Ok(shas) ==> shas@.len() == walk@.len() && forall|i: int|
            0 <= i < shas@.len() ==> #[trigger] shas@[i] == walk@[walk@.len() - 1 - i],
{
    if let Err(e) = parse_commit_range(range) {
        return Err(e);
    }
    let n: usize = walk.len();
    if n > MAX_COMMITS {
        return Err(RangeError::TooLarge { range: range.to_owned() });
    }
    let mut shas: Vec<String> = Vec::new();
    let mut i: usize = n;
    while i > 0
        invariant
            i <= n,
            n == walk@.len(),
            shas@ == walk@.reverse().take(n - i),
        decreases i,
    {
        i -= 1;
        shas.push(walk[i].clone());
        proof {
            assert(shas@ =~= walk@.reverse().take(n - i));
        }
    }
    proof {
        assert(walk@.reverse().take(n as int) =~= walk@.reverse());
    }
    Ok(shas)
}

/// One commit as the index keeps it.
pub struct GitCommitInfo {
    pub git_sha: String,
    pub parent_sha: Vec<String>,
    pub author: String,
    pub subject: String,
    pub message: String,
    pub tags: TagMap,
    pub diff: String,
    pub symbols: Vec<String>,
    pub files: Vec<String>,
}

/// A difference between two trees. The contents are `None` where they cannot be read. A
/// rewrite is a file that another one became, under a new path.
pub enum TreeChange {
    Modification { path: String, blobs: bool, contents: Option<(Vec<u8>, Vec<u8>)> },
    Addition { path: String, blob: bool, content: Option<Vec<u8>> },
    Deletion { path: String, blob: bool, content: Option<Vec<u8>> },
    Rewrite { source: String, path: String, blob: bool, contents: Option<(Vec<u8>, Vec<u8>)> },
}

/// A line of text, ended.
pub open spec fn ended(line: Seq<char>) -> Seq<char> {
    line.push('\n')
}

/// The first line of the diff of a file, or of one file and what it became.
pub open spec fn diff_line(source: Seq<char>, path: Seq<char>) -> Seq<char> {
    ended("diff --git a/"@ + source + " b/"@ + path)
}

/// Lines with a mark before each.
pub open spec fn marked(ls: Seq<Seq<char>>, mark: char) -> Seq<char>
    decreases ls.len(),
{
    if ls.len() == 0 {
        Seq::empty()
    } else {
        marked(ls.drop_last(), mark) + ended(seq![mark] + ls.last())
    }
}

/// The text of a change's diff, where `body` is what stands for the changed lines
/// of a modification or of a rewrite.
pub open spec fn change_text(change: TreeChange, body: Seq<char>) -> Seq<char> {
    match change {
        TreeChange::Modification { path, blobs, contents } => if !blobs {
            Seq::empty()
        } else {
            diff_line(path@, path@) + ended("--- a/"@ + path@) + ended("+++ b/"@ + path@)
                + if contents is Some {
                body
            } else {
                Seq::empty()
            }
        },
        TreeChange::Addition { path, blob, content } => if !blob {
            Seq::empty()
        } else {
            diff_line(path@, path@) + ended("--- /dev/null"@) + ended("+++ b/"@ + path@) + match content {
                Some(bytes) => ended(
                    "@@ -0,0 +1,"@ + decimal(lines(lossy_text(bytes@)).len()) + " @@"@,
                ) + marked(lines(lossy_text(bytes@)), '+'),
                None => Seq::empty(),
            }
        },
        TreeChange::Deletion { path, blob, content } => if !blob {
            Seq::empty()
        } else {
            diff_line(path@, path@) + ended("--- a/"@ + path@) + ended("+++ /dev/null"@) + match content {
                Some(bytes) => ended(
                    "@@ -1,"@ + decimal(lines(lossy_text(bytes@)).len()) + " +0,0 @@"@,
                ) + marked(lines(lossy_text(bytes@)), '-'),
                None => Seq::empty(),
            }
        },
        TreeChange::Rewrite { source, path, blob, contents } => if !blob {
            Seq::empty()
        } else {
            diff_line(source@, path@) + ended("--- a/"@ + source@) + ended("+++ b/"@ + path@)
                + if contents is Some {
                body
            } else {
                Seq::empty()
            }
        },
    }
}

/// The file that a change names in the diff, if it is one of a file.
pub open spec fn changed_file(change: TreeChange) -> Option<Seq<char>> {
    match change {
        TreeChange::Modification { path, blobs, .. } => if blobs {
            Some(path@)
        } else {
            None
        },
        TreeChange::Addition { path, blob, .. } => if blob {
            Some(path@)
        } else {
            None
        },
        TreeChange::Deletion { path, blob, .. } => if blob {
            Some(path@)
        } else {
            None
        },
        TreeChange::Rewrite { path, blob, .. } => if blob {
            Some(path@)
        } else {
            None
        },
    }
}

/// Whether the changed lines of a change are rendered, and its symbols sought.
pub open spec fn is_rendered(change: TreeChange) -> bool {
    match change {
        TreeChange::Modification { blobs, contents, .. } => blobs && contents is Some,
        TreeChange::Rewrite { blob, contents, .. } => blob && contents is Some,
        _ => false,
    }
}

/// What a renderer of changed lines gives: the text and the symbols.
pub type Rendering = (String, Vec<String>);

/// The diff of a list of changes, rendered as `outs` says.
pub open spec fn diff_text(changes: Seq<TreeChange>, outs: Seq<Rendering>) -> Seq<char>
    decreases changes.len(),
{
    if changes.len() == 0 {
        Seq::empty()
    } else {
        diff_text(changes.drop_last(), outs.drop_last()) + change_text(
            changes.last(),
            outs.last().0@,
        )
    }
}

/// The symbols of a list of changes, rendered as `outs` says.
pub open spec fn diff_symbols(changes: Seq<TreeChange>, outs: Seq<Rendering>) -> Seq<Seq<char>>
    decreases changes.len(),
{
    if changes.len() == 0 {
        Seq::empty()
    } else {
        let rest = diff_symbols(changes.drop_last(), outs.drop_last());
        if is_rendered(changes.last()) {
            rest + strs(outs.last().1@)
        } else {
            rest
        }
    }
}

/// The files of a list of changes.
pub open spec fn diff_files(changes: Seq<TreeChange>) -> Seq<Seq<char>>
    decreases changes.len(),
{
    if changes.len() == 0 {
        Seq::empty()
    } else {
        match changed_file(changes.last()) {
            Some(path) => diff_files(changes.drop_last()).push(path),
            None => diff_files(changes.drop_last()),
        }
    }
}

/// Whether a renderer gives `out` for two contents: it is asked with both as text and
/// with the path.
pub open spec fn renders_contents<F: Fn(&String, &String, &String) -> Rendering>(
    render: F,
    path: String,
    contents: (Vec<u8>, Vec<u8>),
    out: Rendering,
) -> bool {
    exists|b: String, a: String|
        b@ == lossy_text(contents.0@) && a@ == lossy_text(contents.1@) && #[trigger] render.ensures(
            (&b, &a, &path),
            out,
        )
}

/// Whether a renderer gives `out` for a change.
pub open spec fn renders<F: Fn(&String, &String, &String) -> Rendering>(
    render: F,
    change: TreeChange,
    out: Rendering,
) -> bool {
    match change {
        TreeChange::Modification { path, contents: Some(both), blobs: true } => renders_contents(
            render,
            path,
            both,
            out,
        ),
        TreeChange::Rewrite { path, contents: Some(both), blob: true, .. } => renders_contents(
            render,
            path,
            both,
            out,
        ),
        _ => true,
    }
}

/// Whether texts, symbols and files are the diff of changes under a renderer.
pub open spec fn is_commit_diff<F: Fn(&String, &String, &String) -> Rendering>(
    render: F,
    changes: Seq<TreeChange>,
    outs: Seq<Rendering>,
    diff: Seq<char>,
    symbols: Seq<Seq<char>>,
    files: Seq<Seq<char>>,
) -> bool {
    &&& outs.len() == changes.len()
    &&& forall|i: int| 0 <= i < changes.len() ==> renders(render, #[trigger] changes[i], outs[i])
    &&& diff == diff_text(changes, outs)
    &&& symbols == diff_symbols(changes, outs)
    &&& files == diff_files(changes)
}

fn put_header(
    out: &mut String,
    source: &str,
    path: &str,
    old_mark: &str,
    new_mark: &str,
    in_old: bool,
    in_new: bool,
)
    ensures
        final(out)@ == old(out)@ + (diff_line(source@, path@) + ended(
            old_mark@ + if in_old {
                source@
            } else {
                Seq::empty()
            },
        ) + ended(
            new_mark@ + if in_new {
                path@
            } else {
                Seq::empty()
            },
        )),
{
    out.append("diff --git a/");
    out.append(source);
    out.append(" b/");
    out.append(path);
    out.push('\n');
    out.append(old_mark);
    if in_old {
        out.append(source);
    }
    out.push('\n');
    out.append(new_mark);
    if in_new {
        out.append(path);
    }
    out.push('\n');
    proof {
        assert(out@ =~= old(out)@ + (diff_line(source@, path@) + ended(
            old_mark@ + if in_old {
                source@
            } else {
                Seq::empty()
            },
        ) + ended(
            new_mark@ + if in_new {
                path@
            } else {
                Seq::empty()
            },
        )));
    }
}

fn put_content(out: &mut String, content: &str, before: &str, behind: &str, mark: char)
    ensures
        final(out)@ == old(out)@ + (ended(before@ + decimal(lines(content@).len()) + behind@)
            + marked(lines(content@), mark)),
{
    let ls = lines_of(content);
    let n: usize = ls.len();
    let ghost all = lines(content@);
    let ghost was = out@;
    out.append(before);
    out.append(decimal_text(n as u64).as_str());
    out.append(behind);
    out.push('\n');
    let ghost head = ended(before@ + decimal(all.len()) + behind@);
    let mut i: usize = 0;
    proof {
        assert(out@ =~= was + (head + marked(all.take(0), mark)));
    }
    while i < n
        invariant
            i <= n,
            n == ls@.len(),
            strs(ls@) == all,
            out@ == was + (head + marked(all.take(i as int), mark)),
        decreases n - i,
    {
        let ghost now = out@;
        out.push(mark);
        out.append(ls[i].as_str());
        out.push('\n');
        proof {
            assert(all.take(i + 1).drop_last() =~= all.take(i as int));
            assert(all.take(i + 1).last() == ls@[i as int]@);
            assert(out@ =~= now + ended(seq![mark] + ls@[i as int]@));
            assert(out@ =~= was + (head + marked(all.take(i + 1), mark)));
        }
        i += 1;
    }
    proof {
        assert(all.take(n as int) =~= all);
    }
}

fn put_change<F: Fn(&String, &String, &String) -> Rendering>(
    out: &mut String,
    change: &TreeChange,
    render: &F,
) -> (r: Rendering)
    requires
        forall|b: &String, a: &String, p: &String| render.requires((b, a, p)),
    ensures
        renders(*render, *change, r),
        final(out)@ == old(out)@ + change_text(*change, r.0@),
{
    let ghost was = out@;
    let mut result: Rendering = (String::new(), Vec::new());
    match change {
        TreeChange::Modification { path, blobs, contents } => {
            if *blobs {
                put_header(out, path.as_str(), path.as_str(), "--- a/", "+++ b/", true, true);
                if let Some((before, after)) = contents {
                    let b = text_from_bytes(before);
                    let a = text_from_bytes(after);
                    result = render(&b, &a, path);
                    out.append(result.0.as_str());
                    assert(render.ensures((&b, &a, path), result));
                }
            }
        },
        TreeChange::Addition { path, blob, content } => {
            if *blob {
                put_header(out, path.as_str(), path.as_str(), "--- /dev/null", "+++ b/", false, true);
                if let Some(bytes) = content {
                    let text = text_from_bytes(bytes);
                    put_content(out, text.as_str(), "@@ -0,0 +1,", " @@", '+');
                }
            }
        },
        TreeChange::Deletion { path, blob, content } => {
            if *blob {
                put_header(out, path.as_str(), path.as_str(), "--- a/", "+++ /dev/null", true, false);
                if let Some(bytes) = content {
                    let text = text_from_bytes(bytes);
                    put_content(out, text.as_str(), "@@ -1,", " +0,0 @@", '-');
                }
            }
        },
        TreeChange::Rewrite { source, path, blob, contents } => {
            if *blob {
                put_header(out, source.as_str(), path.as_str(), "--- a/", "+++ b/", true, true);
                if let Some((before, after)) = contents {
                    let b = text_from_bytes(before);
                    let a = text_from_bytes(after);
                    result = render(&b, &a, path);
                    out.append(result.0.as_str());
                    assert(render.ensures((&b, &a, path), result));
                }
            }
        },
    }
    proof {
        let none = Seq::<char>::empty();
        assert("--- /dev/null"@ + none =~= "--- /dev/null"@);
        assert("+++ /dev/null"@ + none =~= "+++ /dev/null"@);
        assert(out@ =~= was + change_text(*change, result.0@));
    }
    result
}

fn file_of(change: &TreeChange) -> (r: Option<String>)
    ensures
        match r {
            Some(path) => changed_file(*change) == Some(path@),
            None => changed_file(*change) is None,
        },
{
    match change {
        TreeChange::Modification { path, blobs, .. } => if *blobs {
            Some(path.clone())
        } else {
            None
        },
        TreeChange::Addition { path, blob, .. } => if *blob {
            Some(path.clone())
        } else {
            None
        },
        TreeChange::Deletion { path, blob, .. } => if *blob {
            Some(path.clone())
        } else {
            None
        },
        TreeChange::Rewrite { path, blob, .. } => if *blob {
            Some(path.clone())
        } else {
            None
        },
    }
}

fn has_rendering(change: &TreeChange) -> (r: bool)
    ensures
        r == is_rendered(*change),
{
    match change {
        TreeChange::Modification { blobs, contents, .. } => *blobs && contents.is_some(),
        TreeChange::Rewrite { blob, contents, .. } => *blob && contents.is_some(),
        _ => false,
    }
}

/// The diff of a list of changes: its text, the symbols it touches, and the files.
pub fn generate_commit_diff<F: Fn(&String, &String, &String) -> Rendering>(
    changes: &Vec<TreeChange>,
    render: &F,
) -> (r: (String, Vec<String>, Vec<String>))
    requires
        forall|b: &String, a: &String, p: &String| render.requires((b, a, p)),
    ensures
        exists|outs: Seq<Rendering>| #[trigger]
            is_commit_diff(*render, changes@, outs, r.0@, strs(r.1@), strs(r.2@)),
{
    let mut diff: String = String::new();
    let mut symbols: Vec<String> = Vec::new();
    let mut files: Vec<String> = Vec::new();
    let ghost mut outs: Seq<Rendering> = Seq::empty();
    let mut i: usize = 0;
    proof {
        assert(changes@.take(0) =~= Seq::empty());
        assert(diff@ =~= diff_text(changes@.take(0), outs));
        assert(strs(symbols@) =~= diff_symbols(changes@.take(0), outs));
        assert(strs(files@) =~= diff_files(changes@.take(0)));
    }
    while i < changes.len()
        invariant
            i <= changes@.len(),
            forall|b: &String, a: &String, p: &String| render.requires((b, a, p)),
            outs.len() == i,
            forall|j: int| 0 <= j < i ==> renders(*render, #[trigger] changes@[j], outs[j]),
            diff@ == diff_text(changes@.take(i as int), outs),
            strs(symbols@) == diff_symbols(changes@.take(i as int), outs),
            strs(files@) == diff_files(changes@.take(i as int)),
        decreases changes@.len() - i,
    {
        let ghost before = changes@.take(i as int);
        let ghost now = changes@.take(i + 1);
        let ghost had = strs(symbols@);
        let ghost listed = strs(files@);
        let out = put_change(&mut diff, &changes[i], render);
        proof {
            assert(now.drop_last() =~= before);
            assert(now.last() == changes@[i as int]);
            assert(outs.push(out).drop_last() =~= outs);
            outs = outs.push(out);
        }
        let mut found = out.1;
        let ghost given = strs(found@);
        if has_rendering(&changes[i]) {
            symbols.append(&mut found);
            assert(strs(symbols@) =~= had + given);
        }
        if let Some(path) = file_of(&changes[i]) {
            files.push(path);
            assert(strs(files@) =~= listed.push(path@));
        }
        i += 1;
    }
    proof {
        assert(changes@.take(i as int) =~= changes@);
    }
    let r = (diff, symbols, files);
    assert(is_commit_diff(*render, changes@, outs, r.0@, strs(r.1@), strs(r.2@)));
    r
}

/// A commit as the repository gives it.
pub struct RawCommit {
    pub git_sha: String,
    pub parent_sha: Vec<String>,
    pub author_name: String,
    pub author_email: String,
    pub message: Vec<u8>,
}

/// Whether a commit has a diff of its own: merges and roots have none.
pub open spec fn has_own_diff(parents: Seq<String>) -> bool {
    parents.len() == 1
}

/// The first line of a message, the empty text where it has none.
pub open spec fn subject_of(message: Seq<char>) -> Seq<char> {
    if lines(message).len() > 0 {
        lines(message)[0]
    } else {
        Seq::empty()
    }
}

/// Whether `info` is what `raw` gives, apart from its diff.
pub open spec fn describes(info: GitCommitInfo, raw: RawCommit) -> bool {
    let message = lossy_text(raw.message@);
    &&& info.git_sha@ == raw.git_sha@
    &&& strs(info.parent_sha@) == strs(raw.parent_sha@)
    &&& info.author@ == raw.author_name@ + " <"@ + raw.author_email@ + ">"@
    &&& info.message@ == message
    &&& info.subject@ == subject_of(message)
    &&& info.tags.wf()
    &&& info.tags@ == tags_of_lines(lines(message))
}

/// The metadata of a commit. `changes` are the differences from its one parent,
/// `None` where they could not be found; a commit with no parent or with several
/// gets no diff, whatever they are.
pub fn extract_commit_metadata<F: Fn(&String, &String, &String) -> Rendering>(
    raw: RawCommit,
    changes: Option<&Vec<TreeChange>>,
    render: &F,
) -> (r: GitCommitInfo)
    requires
        forall|b: &String, a: &String, p: &String| render.requires((b, a, p)),
    ensures
        describes(r, raw),
        match changes {
            Some(found) if has_own_diff(raw.parent_sha@) => exists|outs: Seq<Rendering>| #[trigger]
                is_commit_diff(*render, found@, outs, r.diff@, strs(r.symbols@), strs(r.files@)),
            _ => r.diff@.len() == 0 && r.symbols@.len() == 0 && r.files@.len() == 0,
        },
{
    let mut author = raw.author_name;
    author.append(" <");
    author.append(raw.author_email.as_str());
    author.append(">");
    let message = text_from_bytes(&raw.message);
    let ls = lines_of(message.as_str());
    let subject = if ls.len() > 0 {
        assert(strs(ls@)[0] == ls@[0]@);
        ls[0].clone()
    } else {
        String::new()
    };
    let tags = parse_commit_message_tags(message.as_str());
    let one_parent = raw.parent_sha.len() == 1;
    let (diff, symbols, files) = match changes {
        Some(found) if one_parent => generate_commit_diff(found, render),
        _ => (String::new(), Vec::new(), Vec::new()),
    };
    let r = GitCommitInfo {
        git_sha: raw.git_sha,
        parent_sha: raw.parent_sha,
        author,
        subject,
        message,
        tags,
        diff,
        symbols,
        files,
    };
    proof {
        if changes is Some && one_parent {
            let found = changes->0@;
            let outs = choose|outs: Seq<Rendering>| #[trigger]
                is_commit_diff(*render, found, outs, diff@, strs(symbols@), strs(files@));
            assert(is_commit_diff(*render, found, outs, r.diff@, strs(r.symbols@), strs(r.files@)));
        }
    }
    r
}

/// The files of a diff are those that its changes name, renamed files among them, and no
/// others; where no two changes name one file, none stands twice. Without changes there
/// is none.
pub proof fn law_changed_files(changes: Seq<TreeChange>)
    ensures
        forall|path: Seq<char>| #[trigger]
            diff_files(changes).contains(path) <==> exists|i: int|
                0 <= i < changes.len() && changed_file(#[trigger] changes[i]) == Some(path),
        (forall|i: int, j: int|
            0 <= i < j < changes.len() && changed_file(#[trigger] changes[i]) is Some
                ==> changed_file(changes[i]) != changed_file(#[trigger] changes[j]))
            ==> diff_files(changes).no_duplicates(),
        changes.len() == 0 ==> diff_files(changes).len() == 0,
    decreases changes.len(),
{
    if changes.len() > 0 {
        let rest = changes.drop_last();
        let last = changes.last();
        let had = diff_files(rest);
        let now = diff_files(changes);
        law_changed_files(rest);
        assert forall|path: Seq<char>| #[trigger] now.contains(path) <==> exists|i: int|
            0 <= i < changes.len() && changed_file(#[trigger] changes[i]) == Some(path) by {
            if now.contains(path) {
                let k = choose|k: int| 0 <= k < now.len() && now[k] == path;
                if k < had.len() {
                    assert(had.contains(path));
                    let i = choose|i: int|
                        0 <= i < rest.len() && changed_file(#[trigger] rest[i]) == Some(path);
                    assert(changed_file(changes[i]) == Some(path));
                } else {
                    assert(changed_file(changes[changes.len() - 1]) == Some(path));
                }
            }
            if exists|i: int|
                0 <= i < changes.len() && changed_file(#[trigger] changes[i]) == Some(path) {
                let i = choose|i: int|
                    0 <= i < changes.len() && changed_file(#[trigger] changes[i]) == Some(path);
                if i < rest.len() {
                    assert(changed_file(rest[i]) == Some(path));
                    assert(had.contains(path));
                    let k = choose|k: int| 0 <= k < had.len() && had[k] == path;
                    assert(now[k] == path);
                } else {
                    assert(now[had.len() as int] == path);
                }
            }
        }
        if forall|i: int, j: int|
            0 <= i < j < changes.len() && changed_file(#[trigger] changes[i]) is Some
                ==> changed_file(changes[i]) != changed_file(#[trigger] changes[j]) {
            assert forall|i: int, j: int|
                0 <= i < j < rest.len() && changed_file(#[trigger] rest[i]) is Some implies
                changed_file(rest[i]) != changed_file(#[trigger] rest[j]) by {
                assert(changed_file(changes[i]) != changed_file(changes[j]));
            }
            if let Some(path) = changed_file(last) {
                if had.contains(path) {
                    let i = choose|i: int|
                        0 <= i < rest.len() && changed_file(#[trigger] rest[i]) == Some(path);
                    assert(changed_file(changes[i]) != changed_file(changes[changes.len() - 1]));
                }
            }
        }
    }
}

/// A text without a separator is one piece.
proof fn lemma_one_piece(s: Seq<char>)
    requires
        !has_part(s, ".."@),
    ensures
        split_on(s, ".."@) == seq![s],
    decreases s.len(),
{
    reveal_strlit("..");
    if s.len() > 0 {
        assert(!occurs_at(s, ".."@, 0));
        let rest = s.drop_first();
        assert forall|at: int| !occurs_at(rest, ".."@, at) by {
            if occurs_at(rest, ".."@, at) {
                assert(s.subrange(at + 1, at + 3) =~= rest.subrange(at, at + 2));
                assert(occurs_at(s, ".."@, at + 1));
            }
        }
        lemma_one_piece(rest);
        assert(seq![s[0]] + rest =~= s);
        assert(seq![s] =~= seq![seq![s[0]] + seq![rest][0]] + seq![rest].drop_first());
    }
}

/// Two pieces with the separator between them split there.
proof fn lemma_two_pieces(a: Seq<char>, b: Seq<char>)
    requires
        !has_part(a, ".."@),
        !has_part(b, ".."@),
        a.len() == 0 || a.last() != '.',
    ensures
        split_on(a + ".."@ + b, ".."@) == seq![a, b],
    decreases a.len(),
{
    reveal_strlit("..");
    let s = a + ".."@ + b;
    if a.len() == 0 {
        assert(s.subrange(0, 2) =~= ".."@);
        assert(s.skip(2) =~= b);
        lemma_one_piece(b);
        assert(a =~= Seq::empty());
        assert(seq![Seq::<char>::empty()] + seq![b] =~= seq![a, b]);
    } else {
        let rest = a.drop_first();
        assert(!occurs_at(s, ".."@, 0)) by {
            if occurs_at(s, ".."@, 0) {
                assert(s.subrange(0, 2)[0] == '.' && s.subrange(0, 2)[1] == '.');
                assert(s[0] == a[0]);
                if a.len() >= 2 {
                    assert(a.subrange(0, 2) =~= ".."@);
                    assert(occurs_at(a, ".."@, 0));
                }
            }
        }
        assert forall|at: int| !occurs_at(rest, ".."@, at) by {
            if occurs_at(rest, ".."@, at) {
                assert(a.subrange(at + 1, at + 3) =~= rest.subrange(at, at + 2));
                assert(occurs_at(a, ".."@, at + 1));
            }
        }
        if rest.len() > 0 {
            assert(rest.last() == a.last());
        }
        lemma_two_pieces(rest, b);
        assert(s.drop_first() =~= rest + ".."@ + b);
        assert(seq![a[0]] + rest =~= a);
        assert(seq![seq![s[0]] + seq![rest, b][0]] + seq![rest, b].drop_first() =~= seq![a, b]);
    }
}

/// Two references with the separator between them are a range from the one to the other,
/// as long as neither holds the separator and the first does not end in a dot.
pub proof fn law_range_of_two_references(a: Seq<char>, b: Seq<char>)
    requires
        !has_part(a, ".."@),
        !has_part(b, ".."@),
        a.len() == 0 || a.last() != '.',
    ensures
        is_range(a + ".."@ + b),
        range_from(a + ".."@ + b) == a,
        range_to(a + ".."@ + b) == b,
{
    reveal_strlit("..");
    let s = a + ".."@ + b;
    lemma_two_pieces(a, b);
    assert(s.subrange(a.len() as int, a.len() as int + 2) =~= ".."@);
    assert(occurs_at(s, ".."@, a.len() as int));
}

/// A reference without the separator is a range that hides nothing.
pub proof fn law_range_of_one_reference(r: Seq<char>)
    requires
        !has_part(r, ".."@),
    ensures
        is_range(r),
        range_from(r).len() == 0,
        range_to(r) == r,
{
}

/// A range is one reference without the separator, which hides nothing, or two references
/// with the separator between them. A text that is no range has the separator twice.
pub proof fn law_range(range: Seq<char>)
    ensures
        !has_part(range, ".."@) ==> is_range(range) && range_to(range) == range && range_from(
            range,
        ).len() == 0,
        has_part(range, ".."@) && is_range(range) ==> {
            &&& range == range_from(range) + ".."@ + range_to(range)
            &&& !has_part(range_from(range), ".."@)
            &&& !has_part(range_to(range), ".."@)
            &&& forall|j: int| 0 <= j < range_from(range).len() ==> !#[trigger] occurs_at(range, ".."@, j)
        },
        !is_range(range) ==> exists|a: Seq<char>, b: Seq<char>, c: Seq<char>|
            range == #[trigger] (a + ".."@ + b + ".."@ + c),
{
    reveal_strlit("..");
    let all = split_on(range, ".."@);
    law_split_on(range, ".."@, ".."@);
    law_split_first(range, ".."@);
    if has_part(range, ".."@) && is_range(range) {
        assert(all =~= seq![all[0]] + seq![all[1]]);
        law_joined_lists(seq![all[0]], seq![all[1]], ".."@);
        law_joined_lists(seq![all[1]], seq![all[1]], ".."@);
        assert(!has_part(all[0], ".."@) && !has_part(all[1], ".."@));
    }
    if !is_range(range) {
        if all.len() == 1 {
            law_joined_lists(all, all, ".."@);
            assert(!has_part(all[0], ".."@));
        }
        let rest = all.skip(2);
        let two = seq![all[0]] + seq![all[1]];
        assert(all =~= two + rest);
        law_joined_lists(seq![all[0]], seq![all[1]], ".."@);
        law_joined_lists(seq![all[1]], rest, ".."@);
        law_joined_lists(two, rest, ".."@);
        assert(range == all[0] + ".."@ + all[1] + ".."@ + joined(rest, ".."@));
    }
}

/// Lines with a mark: each line has the mark before it and a newline behind it.
pub proof fn law_marked(ls: Seq<Seq<char>>, line: Seq<char>, mark: char)
    ensures
        marked(Seq::<Seq<char>>::empty(), mark).len() == 0,
        marked(ls.push(line), mark) == marked(ls, mark) + (seq![mark] + line).push('\n'),
{
    assert(ls.push(line).drop_last() =~= ls);
}

/// The diff of a change, line by line. What is no change of a file has none. A changed or
/// renamed file has its two paths and, where both contents could be read, its changed lines;
/// a new file has all its lines with a plus, and a deleted one all its lines with a minus,
/// behind a line that says how many there are.
pub proof fn law_change_text(change: TreeChange, body: Seq<char>)
    ensures
        match change {
            TreeChange::Modification { path, blobs, contents } => {
                &&& !blobs ==> change_text(change, body).len() == 0
                &&& blobs && contents is None ==> change_text(change, body) == ("diff --git a/"@ + path@
                    + " b/"@ + path@).push('\n') + ("--- a/"@ + path@).push('\n') + ("+++ b/"@
                    + path@).push('\n')
                &&& blobs && contents is Some ==> change_text(change, body) == ("diff --git a/"@ + path@
                    + " b/"@ + path@).push('\n') + ("--- a/"@ + path@).push('\n') + ("+++ b/"@
                    + path@).push('\n') + body
            },
            TreeChange::Rewrite { source, path, blob, contents } => {
                &&& !blob ==> change_text(change, body).len() == 0
                &&& blob && contents is None ==> change_text(change, body) == ("diff --git a/"@
                    + source@ + " b/"@ + path@).push('\n') + ("--- a/"@ + source@).push('\n') + (
                "+++ b/"@ + path@).push('\n')
                &&& blob && contents is Some ==> change_text(change, body) == ("diff --git a/"@
                    + source@ + " b/"@ + path@).push('\n') + ("--- a/"@ + source@).push('\n') + (
                "+++ b/"@ + path@).push('\n') + body
            },
            TreeChange::Addition { path, blob, content } => {
                &&& !blob ==> change_text(change, body).len() == 0
                &&& blob && content is None ==> change_text(change, body) == ("diff --git a/"@ + path@
                    + " b/"@ + path@).push('\n') + ("--- /dev/null"@).push('\n') + ("+++ b/"@
                    + path@).push('\n')
                &&& blob && content is Some ==> change_text(change, body) == ("diff --git a/"@ + path@
                    + " b/"@ + path@).push('\n') + ("--- /dev/null"@).push('\n') + ("+++ b/"@
                    + path@).push('\n') + (("@@ -0,0 +1,"@ + decimal(
                    lines(lossy_text(content->0@)).len(),
                ) + " @@"@).push('\n') + marked(lines(lossy_text(content->0@)), '+'))
            },
            TreeChange::Deletion { path, blob, content } => {
                &&& !blob ==> change_text(change, body).len() == 0
                &&& blob && content is None ==> change_text(change, body) == ("diff --git a/"@ + path@
                    + " b/"@ + path@).push('\n') + ("--- a/"@ + path@).push('\n') + (
                "+++ /dev/null"@).push('\n')
                &&& blob && content is Some ==> change_text(change, body) == ("diff --git a/"@ + path@
                    + " b/"@ + path@).push('\n') + ("--- a/"@ + path@).push('\n') + (
                "+++ /dev/null"@).push('\n') + (("@@ -1,"@ + decimal(
                    lines(lossy_text(content->0@)).len(),
                ) + " +0,0 @@"@).push('\n') + marked(lines(lossy_text(content->0@)), '-'))
            },
        },
{
    match change {
        TreeChange::Modification { path, blobs, contents } => {
            if blobs && contents is None {
                let head = ("diff --git a/"@ + path@ + " b/"@ + path@).push('\n') + ("--- a/"@
                    + path@).push('\n') + ("+++ b/"@ + path@).push('\n');
                assert(head + Seq::<char>::empty() =~= head);
            }
        },
        TreeChange::Rewrite { source, path, blob, contents } => {
            if blob && contents is None {
                let head = ("diff --git a/"@ + source@ + " b/"@ + path@).push('\n') + ("--- a/"@
                    + source@).push('\n') + ("+++ b/"@ + path@).push('\n');
                assert(head + Seq::<char>::empty() =~= head);
            }
        },
        TreeChange::Addition { path, blob, content } => {
            if blob && content is None {
                let head = ("diff --git a/"@ + path@ + " b/"@ + path@).push('\n') + (
                "--- /dev/null"@).push('\n') + ("+++ b/"@ + path@).push('\n');
                assert(head + Seq::<char>::empty() =~= head);
            }
        },
        TreeChange::Deletion { path, blob, content } => {
            if blob && content is None {
                let head = ("diff --git a/"@ + path@ + " b/"@ + path@).push('\n') + ("--- a/"@
                    + path@).push('\n') + ("+++ /dev/null"@).push('\n');
                assert(head + Seq::<char>::empty() =~= head);
            }
        },
    }
}

/// The file of a change: its path, the new one where it was renamed, as long as it is a change
/// of a file. Changed lines are rendered of a file that was there before and is there behind,
/// where both contents could be read.
pub proof fn law_changed_file(change: TreeChange)
    ensures
        match change {
            TreeChange::Modification { path, blobs, contents } => {
                &&& blobs ==> changed_file(change) == Some(path@)
                &&& !blobs ==> changed_file(change) is None
                &&& is_rendered(change) <==> blobs && contents is Some
            },
            TreeChange::Rewrite { source, path, blob, contents } => {
                &&& blob ==> changed_file(change) == Some(path@)
                &&& !blob ==> changed_file(change) is None
                &&& is_rendered(change) <==> blob && contents is Some
            },
            TreeChange::Addition { path, blob, content } => {
                &&& blob ==> changed_file(change) == Some(path@)
                &&& !blob ==> changed_file(change) is None
                &&& !is_rendered(change)
            },
            TreeChange::Deletion { path, blob, content } => {
                &&& blob ==> changed_file(change) == Some(path@)
                &&& !blob ==> changed_file(change) is None
                &&& !is_rendered(change)
            },
        },
{
}

/// One more change puts its text, its symbols where it is rendered, and its file, where it has
/// one, behind those of the changes before it.
pub proof fn law_one_more_change(
    changes: Seq<TreeChange>,
    outs: Seq<Rendering>,
    change: TreeChange,
    out: Rendering,
)
    ensures
        diff_text(Seq::<TreeChange>::empty(), Seq::<Rendering>::empty()).len() == 0,
        diff_symbols(Seq::<TreeChange>::empty(), Seq::<Rendering>::empty()).len() == 0,
        diff_files(Seq::<TreeChange>::empty()).len() == 0,
        diff_text(changes.push(change), outs.push(out)) == diff_text(changes, outs) + change_text(
            change,
            out.0@,
        ),
        is_rendered(change) ==> diff_symbols(changes.push(change), outs.push(out)) == diff_symbols(
            changes,
            outs,
        ) + strs(out.1@),
        !is_rendered(change) ==> diff_symbols(changes.push(change), outs.push(out)) == diff_symbols(
            changes,
            outs,
        ),
        changed_file(change) matches Some(path) ==> diff_files(changes.push(change)) == diff_files(
            changes,
        ).push(path),
        changed_file(change) is None ==> diff_files(changes.push(change)) == diff_files(changes),
{
    assert(changes.push(change).drop_last() =~= changes);
    assert(outs.push(out).drop_last() =~= outs);
}

/// The diff of a commit is the text, the symbols and the files of its changes, all of them and
/// in their order, each rendered from its two contents as text and its path.
pub proof fn law_commit_diff<F: Fn(&String, &String, &String) -> Rendering>(
    render: F,
    changes: Seq<TreeChange>,
    outs: Seq<Rendering>,
    diff: Seq<char>,
    symbols: Seq<Seq<char>>,
    files: Seq<Seq<char>>,
)
    requires
        is_commit_diff(render, changes, outs, diff, symbols, files),
    ensures
        outs.len() == changes.len(),
        diff == diff_text(changes, outs),
        symbols == diff_symbols(changes, outs),
        files == diff_files(changes),
        forall|i: int|
            0 <= i < changes.len() && is_rendered(#[trigger] changes[i]) ==> match changes[i] {
                TreeChange::Modification { path, contents, .. } => exists|b: String, a: String|
                    contents matches Some(both) && b@ == lossy_text(both.0@) && a@ == lossy_text(
                        both.1@,
                    ) && #[trigger] render.ensures((&b, &a, &path), outs[i]),
                TreeChange::Rewrite { path, contents, .. } => exists|b: String, a: String|
                    contents matches Some(both) && b@ == lossy_text(both.0@) && a@ == lossy_text(
                        both.1@,
                    ) && #[trigger] render.ensures((&b, &a, &path), outs[i]),
                _ => false,
            },
{
    assert forall|i: int| 0 <= i < changes.len() && is_rendered(#[trigger] changes[i]) implies match changes[i] {
        TreeChange::Modification { path, contents, .. } => exists|b: String, a: String|
            contents matches Some(both) && b@ == lossy_text(both.0@) && a@ == lossy_text(
                both.1@,
            ) && #[trigger] render.ensures((&b, &a, &path), outs[i]),
        TreeChange::Rewrite { path, contents, .. } => exists|b: String, a: String|
            contents matches Some(both) && b@ == lossy_text(both.0@) && a@ == lossy_text(
                both.1@,
            ) && #[trigger] render.ensures((&b, &a, &path), outs[i]),
        _ => false,
    } by {
        assert(renders(render, changes[i], outs[i]));
    }
}

/// What the index keeps of a commit besides its diff: its own identifier, its parents in their
/// order, the name and the address of its author, its whole message, the first line of that,
/// and its tags. It has a diff of its own exactly where it has one parent.
pub proof fn law_describes(info: GitCommitInfo, raw: RawCommit)
    requires
        describes(info, raw),
    ensures
        info.git_sha@ == raw.git_sha@,
        strs(info.parent_sha@) == strs(raw.parent_sha@),
        info.author@ == raw.author_name@ + " <"@ + raw.author_email@ + ">"@,
        info.message@ == lossy_text(raw.message@),
        lines(info.message@).len() > 0 ==> info.subject@ == lines(info.message@)[0],
        lines(info.message@).len() == 0 ==> info.subject@.len() == 0,
        info.tags@ == tags_of_lines(lines(info.message@)),
        has_own_diff(raw.parent_sha@) <==> raw.parent_sha@.len() == 1,
{
}

/// The subject of a message is what stands before its first newline, without a carriage return
/// at its end.
pub proof fn law_subject(line: Seq<char>, rest: Seq<char>)
    requires
        !line.contains('\n'),
    ensures
        subject_of(line) == line,
        subject_of(line.push('\n') + rest) == (if line.len() > 0 && line.last() == '\r' {
            line.drop_last()
        } else {
            line
        }),
{
    law_lines(line, rest);
    if line.len() == 0 {
        assert(subject_of(line) =~= line);
    }
}

} // verus!
