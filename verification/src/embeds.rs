//! Embedded code: a source file may carry snippets, each under a tag, that a
//! generator program of the package turns into a ReScript file of its own.
//! Which generator runs on what, what the generated file holds, and how the
//! generated file joins the build, are decided here; running the generator
//! and reading and writing files is left to the caller.
use vstd::prelude::*;
use crate::build_types::{Embed, Module, SourceType};
use crate::clean::name_set;
use crate::packages::{fresh_module, implementation_fields, module_map, pending_file};

verus! {

/// A generator program of a package and the tags it handles.
pub struct EmbedGenerator {
    pub path: String,
    pub tags: Vec<String>,
}

/// Generator `g` handles `tag`.
pub open spec fn handles(g: EmbedGenerator, tag: Seq<char>) -> bool {
    g.tags.deep_view().contains(tag)
}

/// The first generator that handles `tag`, by index.
pub open spec fn first_generator(gens: Seq<EmbedGenerator>, tag: Seq<char>) -> Option<int> {
    if exists|i: int| 0 <= i < gens.len() && #[trigger] handles(gens[i], tag) {
        Some(choose|i: int| 0 <= i < gens.len() && #[trigger] handles(gens[i], tag) && forall|j: int|
            0 <= j < i ==> !#[trigger] handles(gens[j], tag))
    } else {
        None
    }
}

/// What the generator reads: the tag, a newline, then the embedded code.
pub open spec fn generator_input(tag: Seq<char>, contents: Seq<char>) -> Seq<char> {
    tag + seq!['\n'] + contents
}

/// What to do about one embed: nothing when its generated file is up to
/// date; else run the first generator that handles its tag on the tag and
/// the code (its path and input come back); an error when no generator
/// handles the tag.
pub fn embed_action(
    generators: &Vec<EmbedGenerator>,
    tag: &String,
    contents: &String,
    dirty: bool,
) -> (r: Result<Option<(String, String)>, String>)
    ensures
        !dirty ==> r == Ok::<Option<(String, String)>, String>(None),
        dirty ==> match first_generator(generators@, tag@) {
            Some(i) => r matches Ok(Some((p, input))) && p@ == generators@[i].path@ && input@ == generator_input(
                tag@,
                contents@,
            ),
            None => r matches Err(e) && e@ == "No embed generator found for tag: "@ + tag@,
        },
{
    if !dirty {
        return Ok(None);
    }
    let mut i: usize = 0;
    while i < generators.len()
        invariant
            dirty,
            i <= generators@.len(),
            forall|j: int| 0 <= j < i ==> !#[trigger] handles(generators@[j], tag@),
        decreases generators@.len() - i,
    {
        if crate::packages::contains_string(&generators[i].tags, tag) {
            proof {
                let k = i as int;
                assert(handles(generators@[k], tag@));
                let c = choose|c: int| 0 <= c < generators@.len() && #[trigger] handles(generators@[c], tag@) && forall|j: int|
                    0 <= j < c ==> !#[trigger] handles(generators@[j], tag@);
                assert(0 <= k < generators@.len() && handles(generators@[k], tag@) && forall|j: int|
                    0 <= j < k ==> !#[trigger] handles(generators@[j], tag@));
                if c < k {
                    assert(!handles(generators@[c], tag@));
                } else if c > k {
                    assert(!handles(generators@[k], tag@));
                }
            }
            let mut input = tag.clone();
            input.push('\n');
            input.append(contents.as_str());
            return Ok(Some((generators[i].path.clone(), input)));
        }
        i = i + 1;
    }
    let mut e = String::new();
    e.append("No embed generator found for tag: ");
    e.append(tag.as_str());
    Err(e)
}

/// The text of a generated file: a `// HASH: ` line with the hash of the
/// embedded code, then what the generator printed.
pub open spec fn generated_text(hash: Seq<char>, output: Seq<char>) -> Seq<char> {
    "// HASH: "@ + hash + seq!['\n'] + output
}

pub fn generated_file_contents(hash: &str, output: &str) -> (r: String)
    ensures
        r@ == generated_text(hash@, output@),
{
    let mut r = String::new();
    r.append("// HASH: ");
    r.append(hash);
    r.push('\n');
    r.append(output);
    r
}

/// The error when a generator does not succeed, with what it wrote to
/// standard error.
pub fn generator_failure(stderr: &str) -> (r: String)
    ensures
        r@ == "Embed generator failed: "@ + stderr@,
{
    let mut r = String::new();
    r.append("Embed generator failed: ");
    r.append(stderr);
    r
}

/// A generated file joins the build: a module new to the build gets a fresh
/// module for it (its implementation, with the file's time, to be parsed) and
/// its name among the build's module names; a module the build has is marked
/// to be parsed again when its file was made again (`dirty`), and otherwise
/// stays as it is.
pub fn register_embed(
    modules: &mut ahash::AHashMap<String, Module>,
    module_names: &mut ahash::AHashSet<String>,
    module_name: String,
    path: &String,
    last_modified: u128,
    dirty: bool,
    package_name: &String,
)
    ensures
        ({
            let before = module_map(*old(modules));
            let after = module_map(*final(modules));
            if !before.contains_key(module_name@) {
                &&& after.dom() == before.dom().insert(module_name@)
                &&& forall|k: Seq<char>| k != module_name@ && #[trigger] before.contains_key(k) ==> after[k] == before[k]
                &&& after[module_name@].source_type matches SourceType::SourceFile(sf) && sf.interface is None
                    && implementation_fields(sf.implementation) == pending_file(path@, last_modified)
                    && fresh_module(after[module_name@], sf.implementation, None, package_name@)
                &&& name_set(*final(module_names)) == name_set(*old(module_names)).insert(module_name@)
            } else {
                &&& name_set(*final(module_names)) == name_set(*old(module_names))
                &&& after.dom() == before.dom()
                &&& forall|k: Seq<char>| k != module_name@ && #[trigger] before.contains_key(k) ==> after[k] == before[k]
                &&& if dirty {
                    match before[module_name@].source_type {
                        SourceType::SourceFile(sf) => after[module_name@].source_type matches SourceType::SourceFile(nf)
                            && nf.interface == sf.interface && nf.embeds == sf.embeds
                            && nf.implementation.path == sf.implementation.path
                            && nf.implementation.parse_state == sf.implementation.parse_state
                            && nf.implementation.compile_state == sf.implementation.compile_state
                            && nf.implementation.last_modified == sf.implementation.last_modified
                            && nf.implementation.parse_dirty
                            && after[module_name@].deps == before[module_name@].deps
                            && after[module_name@].dependents == before[module_name@].dependents
                            && after[module_name@].package_name == before[module_name@].package_name
                            && after[module_name@].compile_dirty == before[module_name@].compile_dirty
                            && after[module_name@].last_compiled_cmi == before[module_name@].last_compiled_cmi
                            && after[module_name@].last_compiled_cmt == before[module_name@].last_compiled_cmt,
                        SourceType::MlMap(_) => after[module_name@] == before[module_name@],
                    }
                } else {
                    after[module_name@] == before[module_name@]
                }
            }
        }),
{
    match crate::packages::take_module(modules, &module_name) {
        None => {
            let m = crate::packages::new_pending_module(path, last_modified, package_name);
            crate::clean::insert_name(module_names, module_name.clone());
            crate::packages::put_module(modules, module_name, m);
        },
        Some(mut module) => {
            let ghost taken = module;
            if dirty {
                match &mut module.source_type {
                    SourceType::SourceFile(source_file) => {
                        source_file.implementation.parse_dirty = true;
                    },
                    SourceType::MlMap(_) => {},
                }
            }
            crate::packages::put_module(modules, module_name, module);
            proof {
                let before = module_map(*old(modules));
                assert(module_map(*modules).dom() =~= before.dom());
                if !dirty {
                    assert(module == taken);
                }
            }
        },
    }
}


/// The embeds that came out of processing a source file's embedded code:
/// those processed without error, in order (one that failed is left out).
pub open spec fn kept_embeds(results: Seq<Result<Embed, String>>) -> Seq<Embed>
    decreases results.len(),
{
    if results.len() == 0 {
        Seq::empty()
    } else {
        match results.last() {
            Ok(e) => kept_embeds(results.drop_last()).push(e),
            Err(_) => kept_embeds(results.drop_last()),
        }
    }
}

/// Records the embeds of module `module_name` (see `kept_embeds`): a module
/// of a source file gets them in place of those it had, and nothing else
/// changes; any other module, or none, stays as it is.
pub fn set_embeds(modules: &mut ahash::AHashMap<String, Module>, module_name: &String, results: Vec<Result<Embed, String>>)
    ensures
        ({
            let before = module_map(*old(modules));
            let after = module_map(*final(modules));
            &&& after.dom() == before.dom()
            &&& forall|k: Seq<char>| k != module_name@ && #[trigger] before.contains_key(k) ==> after[k] == before[k]
            &&& before.contains_key(module_name@) ==> match before[module_name@].source_type {
                SourceType::SourceFile(sf) => after[module_name@].source_type matches SourceType::SourceFile(nf)
                    && nf.implementation == sf.implementation && nf.interface == sf.interface
                    && nf.embeds@ == kept_embeds(results@)
                    && after[module_name@].deps == before[module_name@].deps
                    && after[module_name@].dependents == before[module_name@].dependents
                    && after[module_name@].package_name == before[module_name@].package_name
                    && after[module_name@].compile_dirty == before[module_name@].compile_dirty
                    && after[module_name@].last_compiled_cmi == before[module_name@].last_compiled_cmi
                    && after[module_name@].last_compiled_cmt == before[module_name@].last_compiled_cmt,
                SourceType::MlMap(_) => after[module_name@] == before[module_name@],
            }
        }),
{
    let ghost rs = results@;
    let mut rest = results;
    let mut kept: Vec<Embed> = Vec::new();
    let mut k: usize = 0;
    let n = rest.len();
    assert(rs.skip(0) =~= rs);
    while k < n
        invariant
            n == rs.len(),
            k <= n,
            rest@ == rs.skip(k as int),
            kept@ == kept_embeds(rs.take(k as int)),
        decreases n - k,
    {
        assert(rest@.len() > 0);
        let x = rest.remove(0);
        proof {
            assert(x == rs[k as int]);
            assert(rest@ =~= rs.skip(k + 1));
            assert(rs.take(k + 1).drop_last() =~= rs.take(k as int));
            assert(rs.take(k + 1).last() == rs[k as int]);
        }
        match x {
            Ok(e) => {
                kept.push(e);
            },
            Err(_) => {},
        }
        k = k + 1;
    }
    assert(rs.take(n as int) =~= rs);
    match crate::packages::take_module(modules, module_name) {
        None => {},
        Some(mut module) => {
            let ghost taken = module;
            match &mut module.source_type {
                SourceType::SourceFile(sf) => {
                    sf.embeds = kept;
                },
                SourceType::MlMap(_) => {},
            }
            crate::packages::put_module(modules, module_name.clone(), module);
            proof {
                let before = module_map(*old(modules));
                assert(module_map(*modules).dom() =~= before.dom());
                if taken.source_type is MlMap {
                    assert(module == taken);
                }
            }
        },
    }
}

} // verus!
