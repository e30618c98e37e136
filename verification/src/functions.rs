//! Functions and types of the indexed code, and how one is picked among many.
use crate::database::DatabaseManager;
use crate::text::{
    ends_with, is_space, law_occurs, law_trimmed, occurs_at, strs, trim, trimmed,
};
use vstd::prelude::*;
use vstd::utf8::encode_utf8;

verus! {

/// A parameter of a function.
pub struct ParameterInfo {
    pub name: String,
    pub type_text: String,
}

/// One version of a function or a macro; a macro has no return type.
pub struct FunctionInfo {
    pub name: String,
    pub file_path: String,
    pub git_file_hash: String,
    pub line_start: u32,
    pub line_end: u32,
    pub return_type: String,
    pub parameters: Vec<ParameterInfo>,
    pub body: String,
    pub calls: Option<Vec<String>>,
    pub types: Option<Vec<String>>,
}

/// One version of a structure, union or enumeration.
pub struct TypeInfo {
    pub name: String,
    pub file_path: String,
    pub git_file_hash: String,
    pub line_start: u32,
    pub kind: String,
    pub definition: String,
}

/// One version of a type alias.
pub struct TypedefInfo {
    pub name: String,
    pub file_path: String,
    pub git_file_hash: String,
    pub line_start: u32,
    pub definition: String,
}

/// How many bytes of body a declaration has at most.
pub const DECLARATION_BYTES: usize = 50;

/// How many lines a function spans behind its first.
pub open spec fn span(f: FunctionInfo) -> int {
    if f.line_end >= f.line_start {
        f.line_end - f.line_start
    } else {
        0
    }
}

/// How many bytes a text takes.
pub open spec fn byte_len(s: Seq<char>) -> nat {
    encode_utf8(s).len()
}

/// Whether a function stands in a source file of C.
pub open spec fn in_source(f: FunctionInfo) -> bool {
    occurs_at(f.file_path@, ".c"@, f.file_path@.len() - ".c"@.len())
}

/// Whether a function has more than a declaration: several lines, and text in them.
pub open spec fn has_body(f: FunctionInfo) -> bool {
    span(f) > 0 && byte_len(f.body@) > DECLARATION_BYTES
}

/// Whether one function is a better answer than another: source files come before
/// others, bodies before declarations, functions with parameters before those
/// without, longer bodies before shorter.
pub open spec fn better(a: FunctionInfo, b: FunctionInfo) -> bool {
    if in_source(a) != in_source(b) {
        in_source(a)
    } else if has_body(a) != has_body(b) {
        has_body(a)
    } else if (a.parameters@.len() > 0) != (b.parameters@.len() > 0) {
        a.parameters@.len() > 0
    } else {
        byte_len(a.body@) > byte_len(b.body@)
    }
}

/// Whether a place in a list holds its best function, the first of the best.
pub open spec fn is_best(matches: Seq<FunctionInfo>, k: int) -> bool {
    &&& 0 <= k < matches.len()
    &&& forall|j: int| 0 <= j < k ==> better(matches[k], #[trigger] matches[j])
    &&& forall|j: int| k < j < matches.len() ==> !better(#[trigger] matches[j], matches[k])
}

/// Whether a function is an implementation. Macros are; of the others those with
/// text that is no declaration.
pub open spec fn is_implementation(f: FunctionInfo) -> bool {
    let body = trimmed(f.body@);
    f.return_type@.len() == 0 || (byte_len(f.body@) > DECLARATION_BYTES && !(span(f) <= 1
        && occurs_at(body, ";"@, body.len() - ";"@.len())))
}

/// Any two functions can be told apart in one direction at most, and being no better
/// carries over.
pub proof fn lemma_better_order(a: FunctionInfo, b: FunctionInfo, c: FunctionInfo)
    ensures
        better(a, b) ==> !better(b, a),
        !better(a, b) && !better(b, c) ==> !better(a, c),
        better(a, b) && !better(c, b) ==> better(a, c),
{
}

fn lines_spanned(f: &FunctionInfo) -> (r: u32)
    ensures
        r == span(*f),
{
    if f.line_end >= f.line_start {
        f.line_end - f.line_start
    } else {
        0
    }
}

fn has_a_body(f: &FunctionInfo) -> (r: bool)
    ensures
        r == has_body(*f),
{
    lines_spanned(f) > 0 && f.body.as_str().as_bytes().len() > DECLARATION_BYTES
}

fn is_better(a: &FunctionInfo, b: &FunctionInfo) -> (r: bool)
    ensures
        r == better(*a, *b),
{
    let a_source = ends_with(a.file_path.as_str(), ".c");
    let b_source = ends_with(b.file_path.as_str(), ".c");
    if a_source != b_source {
        return a_source;
    }
    let a_body = has_a_body(a);
    let b_body = has_a_body(b);
    if a_body != b_body {
        return a_body;
    }
    let a_params = a.parameters.len() > 0;
    let b_params = b.parameters.len() > 0;
    if a_params != b_params {
        return a_params;
    }
    a.body.as_str().as_bytes().len() > b.body.as_str().as_bytes().len()
}

impl DatabaseManager {
    /// The best of some functions: source files come before others, implementations
    /// before declarations. Among equally good ones it is the first.
    pub fn select_best_function_match(&self, matches: Vec<FunctionInfo>) -> (r: FunctionInfo)
        requires
            matches@.len() > 0,
        ensures
            exists|k: int| #[trigger] is_best(matches@, k) && r == matches@[k],
            forall|j: int|
                0 <= j < matches@.len() ==> ({
                    let f = #[trigger] matches@[j];
                    in_source(f) == in_source(r) && has_body(f) == has_body(r) && (
                    f.parameters@.len() > 0) == (r.parameters@.len() > 0) ==> encode_utf8(
                        f.body@,
                    ).len() <= encode_utf8(r.body@).len()
                }),
    {
        let mut all = matches;
        let n: usize = all.len();
        let mut best: usize = 0;
        let mut i: usize = 1;
        while i < n
            invariant
                1 <= i <= n,
                n == all@.len(),
                all@ == matches@,
                best < i,
                forall|j: int| 0 <= j < best ==> better(all@[best as int], #[trigger] all@[j]),
                forall|j: int| best < j < i ==> !better(#[trigger] all@[j], all@[best as int]),
            decreases n - i,
        {
            if is_better(&all[i], &all[best]) {
                proof {
                    assert forall|j: int| 0 <= j < i implies better(
                        all@[i as int],
                        #[trigger] all@[j],
                    ) by {
                        if j < best {
                            lemma_better_order(all@[best as int], all@[j], all@[i as int]);
                            lemma_better_order(all@[i as int], all@[best as int], all@[j]);
                        } else {
                            lemma_better_order(all@[i as int], all@[best as int], all@[j]);
                        }
                    }
                }
                best = i;
            }
            i += 1;
        }
        assert(is_best(matches@, best as int));
        proof {
            assert forall|j: int| 0 <= j < matches@.len() implies !better(
                #[trigger] matches@[j],
                matches@[best as int],
            ) by {
                if j < best {
                    lemma_better_order(matches@[best as int], matches@[j], matches@[best as int]);
                }
            }
        }
        all.remove(best)
    }

    /// The best of all versions of a function, whatever commit they are from.
    pub fn find_function(&self, all_matches: Vec<FunctionInfo>) -> (r: Option<FunctionInfo>)
        ensures
            match r {
                Some(f) => exists|k: int| #[trigger] is_best(all_matches@, k) && f == all_matches@[k],
                None => all_matches@.len() == 0,
            },
    {
        if all_matches.len() == 0 {
            None
        } else {
            Some(self.select_best_function_match(all_matches))
        }
    }

    /// Leaves declarations out.
    pub fn filter_implementations_only(&self, functions: Vec<FunctionInfo>) -> (r: Vec<FunctionInfo>)
        ensures
            r@ == functions@.filter(|f: FunctionInfo| is_implementation(f)),
    {
        let ghost all = functions@;
        let ghost keep = |f: FunctionInfo| is_implementation(f);
        let mut kept: Vec<FunctionInfo> = Vec::new();
        let ghost mut i: int = 0;
        proof {
            reveal(Seq::filter);
            assert(all.take(0).filter(keep) =~= Seq::empty());
        }
        for f in it: functions.into_iter()
            invariant
                it.seq() == all,
                i == it.index(),
                keep == (|f: FunctionInfo| is_implementation(f)),
                kept@ == all.take(i).filter(keep),
        {
            proof {
                reveal(Seq::filter);
                assert(all.take(i + 1).drop_last() =~= all.take(i));
                assert(all.take(i + 1).last() == f);
                i = i + 1;
            }
            if implements(&f) {
                kept.push(f);
            }
        }
        proof {
            assert(all.take(i) =~= all);
        }
        kept
    }

    /// The functions that the best of all versions of a function calls.
    pub fn get_function_callees(&self, all_matches: Vec<FunctionInfo>) -> (r: Vec<String>)
        ensures
            all_matches@.len() == 0 ==> r@.len() == 0,
            all_matches@.len() > 0 ==> exists|k: int| #[trigger]
                is_best(all_matches@, k) && strs(r@) == calls_of(all_matches@[k]),
    {
        match self.find_function(all_matches) {
            Some(f) => self.get_function_callees_git_aware(Some(f)),
            None => Vec::new(),
        }
    }

    /// The functions that a function calls, given what a lookup at a commit found.
    pub fn get_function_callees_git_aware(&self, found: Option<FunctionInfo>) -> (r: Vec<String>)
        ensures
            strs(r@) == (match found {
                Some(f) => calls_of(f),
                None => Seq::empty(),
            }),
    {
        let r: Vec<String> = match found {
            Some(f) => match f.calls {
                Some(calls) => calls,
                None => Vec::new(),
            },
            None => Vec::new(),
        };
        proof {
            if r@.len() == 0 {
                assert(strs(r@) =~= Seq::<Seq<char>>::empty());
            }
        }
        r
    }
}

/// The functions that a function calls.
pub open spec fn calls_of(f: FunctionInfo) -> Seq<Seq<char>> {
    match f.calls {
        Some(calls) => strs(calls@),
        None => Seq::empty(),
    }
}

fn implements(f: &FunctionInfo) -> (r: bool)
    ensures
        r == is_implementation(*f),
{
    if f.return_type.as_str().is_empty() {
        return true;
    }
    let is_declaration = lines_spanned(f) <= 1 && ends_with(trim(f.body.as_str()).as_str(), ";");
    f.body.as_str().as_bytes().len() > DECLARATION_BYTES && !is_declaration
}

/// A list has one best function.
pub proof fn law_best_unique(matches: Seq<FunctionInfo>, j: int, k: int)
    requires
        is_best(matches, j),
        is_best(matches, k),
    ensures
        j == k,
{
    if j < k {
        assert(better(matches[k], matches[j]));
    } else if k < j {
        assert(better(matches[j], matches[k]));
    }
}

/// A definition is preferred: where some function stands in a source file, the best
/// one does; and where one of those in source files has a body, the best one has.
pub proof fn law_best_prefers_definitions(matches: Seq<FunctionInfo>, k: int, j: int)
    requires
        is_best(matches, k),
        0 <= j < matches.len(),
        in_source(matches[j]),
    ensures
        in_source(matches[k]),
        has_body(matches[j]) ==> has_body(matches[k]),
{
    if j < k {
        assert(better(matches[k], matches[j]));
    } else if j > k {
        assert(!better(matches[j], matches[k]));
    }
}

/// The function that is picked, by the fields of the candidates. It stands in a file whose
/// path ends in `.c` where any does. Among those that agree with it on that, it spans
/// several lines and has more than 50 bytes of body where any does; among those that agree
/// on that too, it has parameters where any has; and of those that agree on all three, none
/// has a body of more bytes, and none with as many bytes comes before it.
pub proof fn law_best_by_fields(matches: Seq<FunctionInfo>, k: int)
    requires
        is_best(matches, k),
    ensures
        forall|j: int|
            0 <= j < matches.len() ==> ({
                let r = matches[k];
                let f = #[trigger] matches[j];
                let r_path = r.file_path@;
                let f_path = f.file_path@;
                let r_in_c = r_path.len() >= 2 && r_path[r_path.len() - 2] == '.' && r_path.last()
                    == 'c';
                let f_in_c = f_path.len() >= 2 && f_path[f_path.len() - 2] == '.' && f_path.last()
                    == 'c';
                let r_has_body = r.line_start < r.line_end && encode_utf8(r.body@).len() > 50;
                let f_has_body = f.line_start < f.line_end && encode_utf8(f.body@).len() > 50;
                let r_has_params = r.parameters@.len() > 0;
                let f_has_params = f.parameters@.len() > 0;
                &&& f_in_c ==> r_in_c
                &&& f_in_c == r_in_c && f_has_body ==> r_has_body
                &&& f_in_c == r_in_c && f_has_body == r_has_body && f_has_params ==> r_has_params
                &&& f_in_c == r_in_c && f_has_body == r_has_body && f_has_params == r_has_params
                    ==> encode_utf8(f.body@).len() <= encode_utf8(r.body@).len()
                &&& f_in_c == r_in_c && f_has_body == r_has_body && f_has_params == r_has_params
                    && encode_utf8(f.body@).len() == encode_utf8(r.body@).len() ==> k <= j
            }),
{
    assert forall|j: int| 0 <= j < matches.len() implies in_source(#[trigger] matches[j]) == (
    matches[j].file_path@.len() >= 2 && matches[j].file_path@[matches[j].file_path@.len() - 2] == '.'
        && matches[j].file_path@.last() == 'c') by {
        lemma_c_path(matches[j].file_path@);
    }
    assert forall|j: int| 0 <= j < matches.len() implies !better(#[trigger] matches[j], matches[k]) by {
        if j < k {
            lemma_better_order(matches[k], matches[j], matches[k]);
        }
    }
}

/// A path ends in `.c` where those are its last two characters.
proof fn lemma_c_path(path: Seq<char>)
    ensures
        occurs_at(path, ".c"@, path.len() - ".c"@.len()) <==> path.len() >= 2 && path[path.len() - 2]
            == '.' && path.last() == 'c',
{
    reveal_strlit(".c");
    law_occurs(path, ".c"@, path.len() - ".c"@.len());
    if path.len() >= 2 && path[path.len() - 2] == '.' && path.last() == 'c' {
        assert forall|i: int| 0 <= i < ".c"@.len() implies #[trigger] ".c"@[i] == path[path.len()
            - ".c"@.len() + i] by {
            if i == 0 {
            } else {
                assert(i == 1);
            }
        }
    }
    if occurs_at(path, ".c"@, path.len() - ".c"@.len()) {
        assert(".c"@[0] == path[path.len() - 2]);
        assert(".c"@[1] == path[path.len() - 1]);
    }
}

/// What is left when declarations are left out, by the fields of a function. A macro, which
/// has no return type, is kept. Any other function is kept where its body has more than 50
/// bytes, but not where it ends on its first line or the next and the last character of its
/// body that is no white space is a semicolon.
pub proof fn law_implementations_by_fields(f: FunctionInfo)
    ensures
        f.return_type@.len() == 0 ==> is_implementation(f),
        f.return_type@.len() > 0 ==> (is_implementation(f) <==> encode_utf8(f.body@).len() > 50 && !(
        f.line_end <= f.line_start + 1 && exists|i: int|
            0 <= i < f.body@.len() && #[trigger] f.body@[i] == ';' && (forall|j: int|
                i < j < f.body@.len() ==> is_space(#[trigger] f.body@[j])))),
{
    let s = f.body@;
    let body = trimmed(s);
    law_trimmed(s);
    let (a, b) = choose|a: int, b: int|
        0 <= a <= b <= s.len() && trimmed(s) == #[trigger] s.subrange(a, b) && (a < b
            ==> !is_space(s[a]) && !is_space(s[b - 1])) && (forall|i: int|
            0 <= i < a || b <= i < s.len() ==> is_space(#[trigger] s[i]));
    reveal_strlit(";");
    law_occurs(body, ";"@, body.len() - ";"@.len());
    assert(body.len() == b - a);
    if occurs_at(body, ";"@, body.len() - 1) {
        assert(";"@[0] == body[body.len() - 1]);
        assert(s[b - 1] == ';');
        assert forall|j: int| b - 1 < j < s.len() implies is_space(#[trigger] s[j]) by {}
    }
    if exists|i: int|
        0 <= i < s.len() && #[trigger] s[i] == ';' && (forall|j: int|
            i < j < s.len() ==> is_space(#[trigger] s[j])) {
        let i = choose|i: int|
            0 <= i < s.len() && #[trigger] s[i] == ';' && (forall|j: int|
                i < j < s.len() ==> is_space(#[trigger] s[j]));
        assert(!is_space(s[i]));
        assert(a <= i < b);
        if i < b - 1 {
            assert(is_space(s[b - 1]));
        }
        assert(body[body.len() - 1] == ';');
        assert(";"@[0] == body[body.len() - 1]);
    }
}

/// Where a lookup at a commit stands.
pub enum GitLookup<T> {
    /// The files that a symbol occurs in are wanted.
    NeedFileNames,
    /// The hashes of these files at the commit are wanted.
    NeedHashes { paths: Vec<String> },
    /// What these files hold, each a path and a hash, is wanted.
    NeedExact { files: Vec<(String, String)> },
    /// Whatever is indexed under the name is wanted, of any commit.
    NeedAny,
    /// This is what was found.
    Found { candidates: Vec<T> },
}

impl<T> GitLookup<T> {
    /// Starts a lookup.
    pub fn start() -> (r: GitLookup<T>)
        ensures
            r is NeedFileNames,
    {
        GitLookup::NeedFileNames
    }

    /// Goes on with the files that the symbol occurs in. Without any, nothing is found.
    pub fn on_file_names(self, names: Vec<String>) -> (r: GitLookup<T>)
        ensures
            match self {
                GitLookup::NeedFileNames => if names@.len() == 0 {
                    r is Found && r.found().len() == 0
                } else {
                    r == GitLookup::<T>::NeedHashes { paths: names }
                },
                other => r == other,
            },
    {
        match self {
            GitLookup::NeedFileNames => if names.len() == 0 {
                GitLookup::Found { candidates: Vec::new() }
            } else {
                GitLookup::NeedHashes { paths: names }
            },
            other => other,
        }
    }

    /// Goes on with the hashes of those files that exist at the commit. Without any,
    /// any version will do.
    pub fn on_hashes(self, files: Vec<(String, String)>) -> (r: GitLookup<T>)
        ensures
            r == (match self {
                GitLookup::NeedHashes { .. } => if files@.len() == 0 {
                    GitLookup::NeedAny
                } else {
                    GitLookup::NeedExact { files }
                },
                other => other,
            }),
    {
        match self {
            GitLookup::NeedHashes { .. } => if files.len() == 0 {
                GitLookup::NeedAny
            } else {
                GitLookup::NeedExact { files }
            },
            other => other,
        }
    }

    /// Goes on with what those files hold. Without anything, any version will do.
    pub fn on_exact(self, matches: Vec<T>) -> (r: GitLookup<T>)
        ensures
            r == (match self {
                GitLookup::NeedExact { .. } => if matches@.len() == 0 {
                    GitLookup::NeedAny
                } else {
                    GitLookup::Found { candidates: matches }
                },
                other => other,
            }),
    {
        match self {
            GitLookup::NeedExact { .. } => if matches.len() == 0 {
                GitLookup::NeedAny
            } else {
                GitLookup::Found { candidates: matches }
            },
            other => other,
        }
    }

    /// Ends with what is indexed under the name, of any commit.
    pub fn on_any(self, all: Vec<T>) -> (r: GitLookup<T>)
        ensures
            r == (match self {
                GitLookup::NeedAny => GitLookup::Found { candidates: all },
                other => other,
            }),
    {
        match self {
            GitLookup::NeedAny => GitLookup::Found { candidates: all },
            other => other,
        }
    }

    /// What was found; nothing before the lookup ended.
    pub fn candidates(self) -> (r: Vec<T>)
        ensures
            r@ == self.found(),
    {
        match self {
            GitLookup::Found { candidates } => candidates,
            _ => Vec::new(),
        }
    }

    /// What was found; nothing before the lookup ended.
    pub open spec fn found(self) -> Seq<T> {
        match self {
            GitLookup::Found { candidates } => candidates@,
            _ => Seq::empty(),
        }
    }
}

/// What a lookup at a commit finds: what the symbol's files at that commit hold, or
/// else whatever is indexed under the name.
pub open spec fn git_lookup<T>(
    names: Seq<String>,
    files: Seq<(String, String)>,
    exact: Seq<T>,
    any: Seq<T>,
) -> Seq<T> {
    if names.len() == 0 {
        Seq::empty()
    } else if files.len() == 0 || exact.len() == 0 {
        any
    } else {
        exact
    }
}

/// Runs a lookup through on given answers.
pub fn run_lookup<T>(
    names: Vec<String>,
    files: Vec<(String, String)>,
    exact: Vec<T>,
    any: Vec<T>,
) -> (r: Vec<T>)
    ensures
        r@ == git_lookup(names@, files@, exact@, any@),
{
    GitLookup::start().on_file_names(names).on_hashes(files).on_exact(exact).on_any(
        any,
    ).candidates()
}

impl DatabaseManager {
    /// The best version of a function at a commit, given what the lookup found.
    pub fn find_function_git_aware(&self, lookup: GitLookup<FunctionInfo>) -> (r: Option<
        FunctionInfo,
    >)
        ensures
            match r {
                Some(f) => exists|k: int| #[trigger] is_best(lookup.found(), k) && f == lookup.found()[k],
                None => lookup.found().len() == 0,
            },
    {
        self.find_function(lookup.candidates())
    }

    /// All implementations of a function at a commit, given what the lookup found.
    pub fn find_all_functions_git_aware(&self, lookup: GitLookup<FunctionInfo>) -> (r: Vec<
        FunctionInfo,
    >)
        ensures
            r@ == lookup.found().filter(|f: FunctionInfo| is_implementation(f)),
    {
        self.filter_implementations_only(lookup.candidates())
    }

    /// A type at a commit, given what the lookup found: the first.
    pub fn find_type_git_aware(&self, lookup: GitLookup<TypeInfo>) -> (r: Option<TypeInfo>)
        ensures
            r == first_of(lookup.found()),
    {
        first_item(lookup.candidates())
    }

    /// A type alias at a commit, given what the lookup found: the first.
    pub fn find_typedef_git_aware(&self, lookup: GitLookup<TypedefInfo>) -> (r: Option<TypedefInfo>)
        ensures
            r == first_of(lookup.found()),
    {
        first_item(lookup.candidates())
    }
}

/// The first of a list, if it has any.
pub open spec fn first_of<T>(s: Seq<T>) -> Option<T> {
    if s.len() > 0 {
        Some(s[0])
    } else {
        None
    }
}

fn first_item<T>(v: Vec<T>) -> (r: Option<T>)
    ensures
        r == first_of(v@),
{
    let mut all = v;
    if all.len() > 0 {
        Some(all.remove(0))
    } else {
        None
    }
}

/// What a lookup at a commit finds, by what was told: nothing without files that hold the
/// name; what the files of the commit hold wherever they hold anything; and all that is
/// indexed under the name where they are not there or hold nothing.
pub proof fn law_lookup<T>(
    names: Seq<String>,
    files: Seq<(String, String)>,
    exact: Seq<T>,
    any: Seq<T>,
)
    ensures
        names.len() == 0 ==> git_lookup(names, files, exact, any).len() == 0,
        names.len() > 0 && files.len() > 0 && exact.len() > 0 ==> git_lookup(names, files, exact, any)
            == exact,
        names.len() > 0 && files.len() == 0 ==> git_lookup(names, files, exact, any) == any,
        names.len() > 0 && exact.len() == 0 ==> git_lookup(names, files, exact, any) == any,
{
}

/// The first of a list is there where the list is not empty, and is its first.
pub proof fn law_first<T>(s: Seq<T>)
    ensures
        s.len() == 0 <==> first_of(s) is None,
        s.len() > 0 ==> first_of(s) == Some(s[0]),
{
}

/// The calls of a function are those that it was stored with, in their order, and none where
/// it was stored without any.
pub proof fn law_calls(f: FunctionInfo)
    ensures
        f.calls is None ==> calls_of(f).len() == 0,
        f.calls is Some ==> calls_of(f).len() == f.calls->0@.len(),
        f.calls is Some ==> forall|i: int|
            0 <= i < f.calls->0@.len() ==> #[trigger] calls_of(f)[i] == f.calls->0@[i]@,
{
}

} // verus!
