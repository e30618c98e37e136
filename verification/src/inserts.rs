//! What is written where when functions and types are stored.
use crate::database::DatabaseManager;
use crate::functions::{FunctionInfo, TypeInfo, TypedefInfo};
use crate::lists::{distinct, firsts};
use crate::text::{lemma_strs_empty, lemma_strs_push, strs};
use vstd::prelude::*;

verus! {

broadcast use {lemma_strs_push, lemma_strs_empty};

/// A symbol and the file it occurs in.
pub type SymbolFile = (Seq<char>, Seq<char>);

/// The texts of pairs.
pub open spec fn pair_texts(pairs: Seq<(String, String)>) -> Seq<SymbolFile> {
    pairs.map_values(|p: (String, String)| (p.0@, p.1@))
}

/// The symbols of functions, with their files.
pub open spec fn function_pairs(functions: Seq<FunctionInfo>) -> Seq<SymbolFile> {
    functions.map_values(|f: FunctionInfo| (f.name@, f.file_path@))
}

/// The symbols of types, with their files.
pub open spec fn type_pairs(types: Seq<TypeInfo>) -> Seq<SymbolFile> {
    types.map_values(|t: TypeInfo| (t.name@, t.file_path@))
}

/// The symbols of type aliases, with their files.
pub open spec fn typedef_pairs(typedefs: Seq<TypedefInfo>) -> Seq<SymbolFile> {
    typedefs.map_values(|t: TypedefInfo| (t.name@, t.file_path@))
}

/// Those of some texts that are not empty, in order.
pub open spec fn filled(texts: Seq<Seq<char>>) -> Seq<Seq<char>> {
    texts.filter(|t: Seq<char>| t.len() > 0)
}

/// The bodies of functions.
pub open spec fn bodies(functions: Seq<FunctionInfo>) -> Seq<Seq<char>> {
    functions.map_values(|f: FunctionInfo| f.body@)
}

/// The definitions of types.
pub open spec fn type_definitions(types: Seq<TypeInfo>) -> Seq<Seq<char>> {
    types.map_values(|t: TypeInfo| t.definition@)
}

/// The definitions of type aliases.
pub open spec fn typedef_definitions(typedefs: Seq<TypedefInfo>) -> Seq<Seq<char>> {
    typedefs.map_values(|t: TypedefInfo| t.definition@)
}

/// What is written for a batch of functions, types and macros. An empty part is not
/// written at all.
pub struct CombinedBatch {
    pub functions: Vec<FunctionInfo>,
    pub types: Vec<TypeInfo>,
    /// The texts for the tables of contents.
    pub contents: Vec<String>,
    /// The symbols with their files.
    pub symbol_files: Vec<(String, String)>,
}

/// What is written for types or type aliases beside them.
pub struct DefinitionBatch {
    /// The definitions for the tables of contents, each once.
    pub contents: Vec<String>,
    /// The symbols with their files.
    pub symbol_files: Vec<(String, String)>,
}

/// Keeps a text where it is not empty.
fn push_filled(out: &mut Vec<String>, text: &String, Ghost(before): Ghost<Seq<Seq<char>>>)
    requires
        strs(old(out)@) == filled(before),
    ensures
        strs(final(out)@) == filled(before.push(text@)),
{
    proof {
        reveal(Seq::filter);
        assert(before.push(text@).drop_last() =~= before);
    }
    if !text.as_str().is_empty() {
        out.push(text.clone());
    }
}

impl DatabaseManager {
    /// What is written for a batch: macros are stored as functions, behind them; bodies and
    /// definitions that are not empty go to the tables of contents.
    pub fn insert_batch_combined(
        &self,
        functions: Vec<FunctionInfo>,
        types: Vec<TypeInfo>,
        macros: Vec<FunctionInfo>,
    ) -> (r: CombinedBatch)
        ensures
            r.functions@ == functions@ + macros@,
            r.types@ == types@,
            strs(r.contents@) == filled(bodies(functions@ + macros@) + type_definitions(types@)),
            pair_texts(r.symbol_files@) == function_pairs(functions@ + macros@) + type_pairs(
                types@,
            ),
    {
        let mut all = functions;
        let mut others = macros;
        all.append(&mut others);
        let ghost fs = all@;
        let mut contents: Vec<String> = Vec::new();
        let mut pairs: Vec<(String, String)> = Vec::new();
        let mut i: usize = 0;
        proof {
            reveal(Seq::filter);
            assert(fs =~= functions@ + macros@);
            assert(bodies(fs.take(0)) =~= Seq::empty());
            assert(pair_texts(pairs@) =~= function_pairs(fs.take(0)));
        }
        while i < all.len()
            invariant
                i <= all@.len(),
                fs == all@,
                strs(contents@) == filled(bodies(fs.take(i as int))),
                pair_texts(pairs@) == function_pairs(fs.take(i as int)),
            decreases all@.len() - i,
        {
            let ghost had = pair_texts(pairs@);
            proof {
                assert(bodies(fs.take(i + 1)) =~= bodies(fs.take(i as int)).push(
                    fs[i as int].body@,
                ));
                assert(function_pairs(fs.take(i + 1)) =~= function_pairs(fs.take(i as int)).push(
                    (fs[i as int].name@, fs[i as int].file_path@),
                ));
            }
            push_filled(&mut contents, &all[i].body, Ghost(bodies(fs.take(i as int))));
            pairs.push((all[i].name.clone(), all[i].file_path.clone()));
            proof {
                assert(pair_texts(pairs@) =~= had.push(
                    (fs[i as int].name@, fs[i as int].file_path@),
                ));
            }
            i += 1;
        }
        let ghost texts = bodies(fs);
        let ghost symbols = function_pairs(fs);
        let mut j: usize = 0;
        proof {
            assert(fs.take(i as int) =~= fs);
            assert(texts + type_definitions(types@.take(0)) =~= texts);
            assert(symbols + type_pairs(types@.take(0)) =~= symbols);
        }
        while j < types.len()
            invariant
                j <= types@.len(),
                strs(contents@) == filled(texts + type_definitions(types@.take(j as int))),
                pair_texts(pairs@) == symbols + type_pairs(types@.take(j as int)),
            decreases types@.len() - j,
        {
            let ghost had = pair_texts(pairs@);
            let ghost before = texts + type_definitions(types@.take(j as int));
            proof {
                assert(texts + type_definitions(types@.take(j + 1)) =~= before.push(
                    types@[j as int].definition@,
                ));
                assert(symbols + type_pairs(types@.take(j + 1)) =~= had.push(
                    (types@[j as int].name@, types@[j as int].file_path@),
                ));
            }
            push_filled(&mut contents, &types[j].definition, Ghost(before));
            pairs.push((types[j].name.clone(), types[j].file_path.clone()));
            proof {
                assert(pair_texts(pairs@) =~= had.push(
                    (types@[j as int].name@, types@[j as int].file_path@),
                ));
            }
            j += 1;
        }
        proof {
            assert(types@.take(j as int) =~= types@);
        }
        CombinedBatch { functions: all, types, contents, symbol_files: pairs }
    }

    /// The symbols of functions with their files, which are written beside the functions.
    pub fn insert_functions(&self, functions: &Vec<FunctionInfo>) -> (r: Vec<(String, String)>)
        ensures
            pair_texts(r@) == function_pairs(functions@),
    {
        let mut pairs: Vec<(String, String)> = Vec::new();
        let mut i: usize = 0;
        proof {
            assert(pair_texts(pairs@) =~= function_pairs(functions@.take(0)));
        }
        while i < functions.len()
            invariant
                i <= functions@.len(),
                pair_texts(pairs@) == function_pairs(functions@.take(i as int)),
            decreases functions@.len() - i,
        {
            let ghost had = pair_texts(pairs@);
            pairs.push((functions[i].name.clone(), functions[i].file_path.clone()));
            proof {
                let f = functions@[i as int];
                assert(pair_texts(pairs@) =~= had.push((f.name@, f.file_path@)));
                assert(function_pairs(functions@.take(i + 1)) =~= had.push(
                    (f.name@, f.file_path@),
                ));
            }
            i += 1;
        }
        proof {
            assert(functions@.take(i as int) =~= functions@);
        }
        pairs
    }

    /// What is written beside types: their definitions that are not empty, each once, and
    /// their symbols with their files.
    pub fn insert_types(&self, types: &Vec<TypeInfo>) -> (r: DefinitionBatch)
        ensures
            strs(r.contents@) == firsts(filled(type_definitions(types@))),
            pair_texts(r.symbol_files@) == type_pairs(types@),
    {
        let mut texts: Vec<String> = Vec::new();
        let mut pairs: Vec<(String, String)> = Vec::new();
        let mut i: usize = 0;
        proof {
            reveal(Seq::filter);
            assert(type_definitions(types@.take(0)) =~= Seq::empty());
            assert(pair_texts(pairs@) =~= type_pairs(types@.take(0)));
        }
        while i < types.len()
            invariant
                i <= types@.len(),
                strs(texts@) == filled(type_definitions(types@.take(i as int))),
                pair_texts(pairs@) == type_pairs(types@.take(i as int)),
            decreases types@.len() - i,
        {
            let ghost had = pair_texts(pairs@);
            let ghost before = type_definitions(types@.take(i as int));
            push_filled(&mut texts, &types[i].definition, Ghost(before));
            pairs.push((types[i].name.clone(), types[i].file_path.clone()));
            proof {
                let t = types@[i as int];
                assert(type_definitions(types@.take(i + 1)) =~= before.push(t.definition@));
                assert(pair_texts(pairs@) =~= had.push((t.name@, t.file_path@)));
                assert(type_pairs(types@.take(i + 1)) =~= had.push((t.name@, t.file_path@)));
            }
            i += 1;
        }
        proof {
            assert(types@.take(i as int) =~= types@);
        }
        DefinitionBatch { contents: distinct(texts), symbol_files: pairs }
    }

    /// What is written beside type aliases: their definitions that are not empty, each once,
    /// and their symbols with their files.
    pub fn insert_typedefs(&self, typedefs: &Vec<TypedefInfo>) -> (r: DefinitionBatch)
        ensures
            strs(r.contents@) == firsts(filled(typedef_definitions(typedefs@))),
            pair_texts(r.symbol_files@) == typedef_pairs(typedefs@),
    {
        let mut texts: Vec<String> = Vec::new();
        let mut pairs: Vec<(String, String)> = Vec::new();
        let mut i: usize = 0;
        proof {
            reveal(Seq::filter);
            assert(typedef_definitions(typedefs@.take(0)) =~= Seq::empty());
            assert(pair_texts(pairs@) =~= typedef_pairs(typedefs@.take(0)));
        }
        while i < typedefs.len()
            invariant
                i <= typedefs@.len(),
                strs(texts@) == filled(typedef_definitions(typedefs@.take(i as int))),
                pair_texts(pairs@) == typedef_pairs(typedefs@.take(i as int)),
            decreases typedefs@.len() - i,
        {
            let ghost had = pair_texts(pairs@);
            let ghost before = typedef_definitions(typedefs@.take(i as int));
            push_filled(&mut texts, &typedefs[i].definition, Ghost(before));
            pairs.push((typedefs[i].name.clone(), typedefs[i].file_path.clone()));
            proof {
                let t = typedefs@[i as int];
                assert(typedef_definitions(typedefs@.take(i + 1)) =~= before.push(t.definition@));
                assert(pair_texts(pairs@) =~= had.push((t.name@, t.file_path@)));
                assert(typedef_pairs(typedefs@.take(i + 1)) =~= had.push((t.name@, t.file_path@)));
            }
            i += 1;
        }
        proof {
            assert(typedefs@.take(i as int) =~= typedefs@);
        }
        DefinitionBatch { contents: distinct(texts), symbol_files: pairs }
    }

    /// The record that a file was processed.
    pub fn mark_file_processed(
        &self,
        file: String,
        git_sha: Option<String>,
        git_file_sha: String,
    ) -> (r: ProcessedFileRecord)
        ensures
            r == (ProcessedFileRecord { file, git_sha, git_file_sha }),
    {
        ProcessedFileRecord { file, git_sha, git_file_sha }
    }
}

/// The record that a file was processed, with its contents' hash.
pub struct ProcessedFileRecord {
    pub file: String,
    pub git_sha: Option<String>,
    pub git_file_sha: String,
}

/// What a batch written in four parts comes to: the first failure, where the contents come
/// first, then the functions, the types and the symbols, or success where none failed.
pub fn combined_outcome<E>(
    contents: Result<(), E>,
    functions: Result<(), E>,
    types: Result<(), E>,
    symbols: Result<(), E>,
) -> (r: Result<(), E>)
    ensures
        r == (if contents is Err {
            contents
        } else if functions is Err {
            functions
        } else if types is Err {
            types
        } else {
            symbols
        }),
{
    if contents.is_err() {
        contents
    } else if functions.is_err() {
        functions
    } else if types.is_err() {
        types
    } else {
        symbols
    }
}

/// Everything that is written for a batch can be found by its name: each function, macro
/// and type has its symbol and file among those written.
pub proof fn law_every_symbol_is_listed(
    functions: Seq<FunctionInfo>,
    types: Seq<TypeInfo>,
    i: int,
)
    ensures
        0 <= i < functions.len() ==> (function_pairs(functions) + type_pairs(types)).contains(
            (functions[i].name@, functions[i].file_path@),
        ),
        0 <= i < types.len() ==> (function_pairs(functions) + type_pairs(types)).contains(
            (types[i].name@, types[i].file_path@),
        ),
{
    let all = function_pairs(functions) + type_pairs(types);
    if 0 <= i < functions.len() {
        assert(all[i] == (functions[i].name@, functions[i].file_path@));
    }
    if 0 <= i < types.len() {
        assert(all[functions.len() + i] == (types[i].name@, types[i].file_path@));
    }
}

/// What a batch lists, item by item: of each function, type and alias its name with its file,
/// its body or definition in full, and of texts those that are not empty, in their order.
pub proof fn law_batch_items(
    functions: Seq<FunctionInfo>,
    types: Seq<TypeInfo>,
    typedefs: Seq<TypedefInfo>,
    i: int,
)
    ensures
        function_pairs(functions).len() == functions.len(),
        type_pairs(types).len() == types.len(),
        typedef_pairs(typedefs).len() == typedefs.len(),
        bodies(functions).len() == functions.len(),
        type_definitions(types).len() == types.len(),
        typedef_definitions(typedefs).len() == typedefs.len(),
        0 <= i < functions.len() ==> function_pairs(functions)[i] == (
            functions[i].name@,
            functions[i].file_path@,
        ) && bodies(functions)[i] == functions[i].body@,
        0 <= i < types.len() ==> type_pairs(types)[i] == (types[i].name@, types[i].file_path@)
            && type_definitions(types)[i] == types[i].definition@,
        0 <= i < typedefs.len() ==> typedef_pairs(typedefs)[i] == (
            typedefs[i].name@,
            typedefs[i].file_path@,
        ) && typedef_definitions(typedefs)[i] == typedefs[i].definition@,
{
}

/// A text is kept exactly where it is not empty, behind those before it.
pub proof fn law_filled(texts: Seq<Seq<char>>, text: Seq<char>)
    ensures
        filled(Seq::<Seq<char>>::empty()).len() == 0,
        text.len() > 0 ==> filled(texts.push(text)) == filled(texts).push(text),
        text.len() == 0 ==> filled(texts.push(text)) == filled(texts),
{
    reveal(Seq::filter);
    assert(texts.push(text).drop_last() =~= texts);
    assert(Seq::<Seq<char>>::empty().filter(|t: Seq<char>| t.len() > 0).len() == 0);
}

/// The texts of pairs are those of their two parts.
pub proof fn law_pair_texts(pairs: Seq<(String, String)>, i: int)
    ensures
        pair_texts(pairs).len() == pairs.len(),
        0 <= i < pairs.len() ==> pair_texts(pairs)[i] == (pairs[i].0@, pairs[i].1@),
{
}

} // verus!
