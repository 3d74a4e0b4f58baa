//! Packages of a build: their namespace and the compiler flags that their
//! configuration asks for.
use vstd::prelude::*;
use crate::case::spec_pascal_case;
use crate::config::{
    Config, NamespaceConfig, OneOrMore, PackageSource, PackageSourceModel, Source, SourceModel, Subdirs,
    SubdirsModel, package_source_model, qualified_without_children, source_model,
};
use crate::filter::{Filter, regex_matches};
use crate::build_types::{CompileState, Implementation, Interface, Module, ParseState, SourceFile, SourceType};
use crate::clean::name_set;

verus! {

/// The namespace a package compiles its modules under.
#[derive(Debug, Clone)]
pub enum Namespace {
    Namespace(String),
    NamespaceWithEntry { namespace: String, entry: String },
    NoNamespace,
}

/// A namespace as text.
pub enum NamespaceModel {
    Namespace(Seq<char>),
    NamespaceWithEntry { namespace: Seq<char>, entry: Seq<char> },
    NoNamespace,
}

pub open spec fn namespace_model(ns: Namespace) -> NamespaceModel {
    match ns {
        Namespace::Namespace(n) => NamespaceModel::Namespace(n@),
        Namespace::NamespaceWithEntry { namespace, entry } => NamespaceModel::NamespaceWithEntry {
            namespace: namespace@,
            entry: entry@,
        },
        Namespace::NoNamespace => NamespaceModel::NoNamespace,
    }
}

/// The suffix that module names of the namespace carry: the namespace itself,
/// or `@namespace` when the namespace has an entry module.
pub open spec fn namespace_suffix(ns: Namespace) -> Option<Seq<char>> {
    match ns {
        Namespace::Namespace(n) => Some(n@),
        Namespace::NamespaceWithEntry { namespace, entry: _ } => Some(seq!['@'] + namespace@),
        Namespace::NoNamespace => None,
    }
}

impl Namespace {
    pub fn to_suffix(&self) -> (r: Option<String>)
        ensures
            r.deep_view() == namespace_suffix(*self),
    {
        match self {
            Namespace::Namespace(namespace) => Some(namespace.clone()),
            Namespace::NamespaceWithEntry { namespace, entry: _ } => {
                let mut s = String::new();
                s.push('@');
                s.append(namespace.as_str());
                Some(s)
            },
            Namespace::NoNamespace => None,
        }
    }
}

/// A package name with every `@` removed and every `/` turned into `_`
/// (`@scope/name` becomes `scope_name`).
pub open spec fn unscoped_name(s: Seq<char>) -> Seq<char>
    decreases s.len(),
{
    if s.len() == 0 {
        Seq::empty()
    } else {
        let prev = unscoped_name(s.drop_last());
        if s.last() == '@' {
            prev
        } else if s.last() == '/' {
            prev.push('_')
        } else {
            prev.push(s.last())
        }
    }
}

/// The namespace named after a package: its unscoped name in Pascal case.
pub open spec fn package_name_namespace(package_name: Seq<char>) -> Seq<char> {
    spec_pascal_case(unscoped_name(package_name))
}

pub fn namespace_from_package_name(package_name: &str) -> (r: String)
    ensures
        r@ == package_name_namespace(package_name@),
{
    let cs = crate::text::chars_of(package_name);
    let mut t = String::new();
    let mut i: usize = 0;
    assert(package_name@.take(0) =~= Seq::<char>::empty());
    while i < cs.len()
        invariant
            cs@ == package_name@,
            i <= cs@.len(),
            t@ == unscoped_name(package_name@.take(i as int)),
        decreases cs@.len() - i,
    {
        assert(package_name@.take(i + 1).drop_last() =~= package_name@.take(i as int));
        let c = cs[i];
        if c == '@' {
        } else if c == '/' {
            t.push('_');
        } else {
            t.push(c);
        }
        i = i + 1;
    }
    assert(package_name@.take(i as int) =~= package_name@);
    crate::case::to_pascal_case(t.as_str())
}

/// The namespace a package's configuration asks for: none unless `namespace`
/// is set; `true` means the name derived from the package name; a name in
/// upper flat case is taken as it is, any other in Pascal case; an entry
/// module, when given, goes with it.
pub open spec fn configured_namespace(
    name: Seq<char>,
    namespace: Option<NamespaceConfig>,
    namespace_entry: Option<Seq<char>>,
) -> NamespaceModel {
    let from_package = package_name_namespace(name);
    let chosen = match namespace {
        Some(NamespaceConfig::Bool(true)) => Some(from_package),
        Some(NamespaceConfig::String(s)) => if s@ == "true"@ {
            Some(from_package)
        } else if crate::case::spec_upper_flat_case(s@) == s@ {
            Some(s@)
        } else {
            Some(spec_pascal_case(s@))
        },
        _ => None,
    };
    match (chosen, namespace_entry) {
        (None, _) => NamespaceModel::NoNamespace,
        (Some(n), None) => NamespaceModel::Namespace(n),
        (Some(n), Some(entry)) => NamespaceModel::NamespaceWithEntry { namespace: n, entry },
    }
}

/// The namespace of a package, from its configuration (see
/// `configured_namespace`).
pub fn package_namespace(bsconfig: &Config) -> (r: Namespace)
    ensures
        namespace_model(r) == configured_namespace(
            bsconfig.name@,
            bsconfig.namespace,
            bsconfig.namespace_entry.deep_view(),
        ),
{
    let namespace_from_package = namespace_from_package_name(bsconfig.name.as_str());
    let chosen: Option<String> = match &bsconfig.namespace {
        Some(NamespaceConfig::Bool(true)) => Some(namespace_from_package),
        Some(NamespaceConfig::String(str)) => {
            if crate::text::str_equals(str.as_str(), "true") {
                Some(namespace_from_package)
            } else if crate::case::is_upper_flat_case(str.as_str()) {
                Some(str.clone())
            } else {
                Some(crate::case::to_pascal_case(str.as_str()))
            }
        },
        _ => None,
    };
    match (chosen, &bsconfig.namespace_entry) {
        (None, _) => Namespace::NoNamespace,
        (Some(namespace), None) => Namespace::Namespace(namespace),
        (Some(namespace), Some(entry)) => Namespace::NamespaceWithEntry { namespace, entry: entry.clone() },
    }
}

/// A file is read when no filter is given or the filter matches its name.
pub open spec fn passes_filter(pattern: Option<Seq<char>>, path: Seq<char>) -> bool {
    match pattern {
        Some(p) => regex_matches(p, path),
        None => true,
    }
}

pub fn matches_filter(filter: &Option<Filter>, path: &str) -> (r: bool)
    ensures
        r == passes_filter(
            match filter {
                Some(f) => Some(f.pattern()),
                None => None,
            },
            path@,
        ),
{
    match filter {
        Some(filter) => filter.is_match(path),
        None => true,
    }
}

#[verifier::external_type_specification]
#[verifier::external_body]
#[verifier::reject_recursive_types(Item)]
#[verifier::reject_recursive_types(Hashing)]
pub struct ExAHashSet<Item, Hashing>(ahash::AHashSet<Item, Hashing>);

#[verifier::external_type_specification]
#[verifier::external_body]
pub struct ExRandomState(ahash::RandomState);

/// The folders that a set of source folders holds, each by its text.
pub uninterp spec fn folder_set(s: ahash::AHashSet<PackageSource>) -> Set<PackageSourceModel>;

/// `AHashSet::new`: an empty set.
#[verifier::external_body]
fn new_folder_set() -> (r: ahash::AHashSet<PackageSource>)
    ensures
        folder_set(r) == Set::<PackageSourceModel>::empty(),
{
    ahash::AHashSet::new()
}

/// `HashSet::insert` through `AHashSet`: the folder is in the set afterwards
/// and nothing else changed. (Folders are equal when all their fields are, which
/// is when their texts are.)
#[verifier::external_body]
fn insert_folder(s: &mut ahash::AHashSet<PackageSource>, x: PackageSource)
    ensures
        folder_set(*final(s)) == folder_set(*old(s)).insert(package_source_model(x)),
{
    s.insert(x);
}

/// `Extend::extend` of `AHashSet` with another set: the union.
#[verifier::external_body]
fn extend_folders(s: &mut ahash::AHashSet<PackageSource>, more: ahash::AHashSet<PackageSource>)
    ensures
        folder_set(*final(s)) == folder_set(*old(s)).union(folder_set(more)),
{
    s.extend(more);
}

/// All the source folders that a source entry stands for: the entry itself
/// as one folder (under `sub_path`), and, unless it recurses into everything,
/// the folders of each of its listed sub folders, under its own folder.
pub open spec fn source_dirs(s: SourceModel, sub_path: Option<Seq<char>>) -> Set<PackageSourceModel>
    decreases s, 0int,
{
    let folder = qualified_without_children(s, sub_path);
    match s {
        SourceModel::Qualified(ps) => match ps.subdirs {
            Some(SubdirsModel::Qualified(children)) => set![folder].union(
                children_dirs(children, folder.dir),
            ),
            _ => set![folder],
        },
        _ => set![folder],
    }
}

/// The folders of every entry in `children`, each under `dir`.
pub open spec fn children_dirs(children: Seq<SourceModel>, dir: Seq<char>) -> Set<PackageSourceModel>
    decreases children, 1int,
{
    if children.len() == 0 {
        Set::empty()
    } else {
        children_dirs(children.drop_last(), dir).union(source_dirs(children.last(), Some(dir)))
    }
}

/// Given a projects' root folder and a `bsconfig::Source`, this recursively creates all the
/// sources in a flat list. In the process, it removes the children, as they are being resolved
/// because of the recursiveness. So you get a flat list of files back, retaining the type_ and
/// wether it needs to recurse into all structures
pub fn get_source_dirs(source: &Source, sub_path: Option<String>) -> (r: ahash::AHashSet<PackageSource>)
    ensures
        folder_set(r) == source_dirs(source_model(*source), sub_path.deep_view()),
    decreases *source,
{
    let mut source_folders = new_folder_set();
    let source_folder = source.to_qualified_without_children(sub_path);
    let dir = source_folder.dir.clone();
    insert_folder(&mut source_folders, source_folder);
    assert(folder_set(source_folders) =~= set![qualified_without_children(source_model(*source), sub_path.deep_view())]);
    match source {
        Source::Qualified(PackageSource { subdirs: Some(Subdirs::Qualified(subdirs)), .. }) => {
            let ghost children = crate::config::sources_model(subdirs@);
            let ghost first = folder_set(source_folders);
            let mut i: usize = 0;
            assert(subdirs@.take(0) =~= Seq::<Source>::empty());
            while i < subdirs.len()
                invariant
                    *source is Qualified,
                    (*source)->Qualified_0.subdirs == Some(Subdirs::Qualified(*subdirs)),
                    i <= subdirs@.len(),
                    children == crate::config::sources_model(subdirs@),
                    folder_set(source_folders) == first.union(
                        children_dirs(crate::config::sources_model(subdirs@.take(i as int)), dir@),
                    ),
                decreases subdirs@.len() - i,
            {
                assert(subdirs@.take(i + 1).drop_last() =~= subdirs@.take(i as int));
                proof {
                    broadcast use vstd::std_specs::vec::axiom_vec_index_decreases;
                    let ps = (*source)->Qualified_0;
                    assert(decreases_to!(*source => ps));
                    assert(decreases_to!(ps => ps.subdirs));
                    assert(decreases_to!(ps.subdirs => ps.subdirs->Some_0));
                    assert(decreases_to!(ps.subdirs->Some_0 => ps.subdirs->Some_0->Qualified_0));
                    assert(decreases_to!(*subdirs => subdirs[i as int]));
                    assert(decreases_to!(*source => subdirs[i as int]));
                }
                let ghost before = folder_set(source_folders);
                let more = get_source_dirs(&subdirs[i], Some(dir.clone()));
                extend_folders(&mut source_folders, more);
                proof {
                    let prev = crate::config::sources_model(subdirs@.take(i as int));
                    let next = crate::config::sources_model(subdirs@.take(i + 1));
                    assert(next == prev.push(source_model(subdirs@[i as int])));
                    assert(next.drop_last() =~= prev);
                    assert(next.last() == source_model(subdirs@[i as int]));
                    assert(children_dirs(next, dir@) == children_dirs(prev, dir@).union(
                        source_dirs(source_model(subdirs@[i as int]), Some(dir@)),
                    ));
                }
                i = i + 1;
                assert(folder_set(source_folders) =~= first.union(
                    children_dirs(crate::config::sources_model(subdirs@.take(i as int)), dir@),
                ));
            }
            assert(subdirs@.take(i as int) =~= subdirs@);
        },
        _ => {},
    }
    source_folders
}

/// The folders of each top-level source entry, all together.
pub open spec fn entries_dirs(entries: Seq<SourceModel>) -> Set<PackageSourceModel>
    decreases entries.len(),
{
    if entries.len() == 0 {
        Set::empty()
    } else {
        entries_dirs(entries.drop_last()).union(source_dirs(entries.last(), None))
    }
}

/// All the source folders of a package's `sources` setting (one entry or a
/// list of them).
pub fn get_source_folders(sources: &OneOrMore<Source>) -> (r: ahash::AHashSet<PackageSource>)
    ensures
        folder_set(r) == match *sources {
            OneOrMore::Single(s) => source_dirs(source_model(s), None),
            OneOrMore::Multiple(v) => entries_dirs(crate::config::sources_model(v@)),
        },
{
    match sources {
        OneOrMore::Single(source) => get_source_dirs(source, None),
        OneOrMore::Multiple(v) => {
            let mut source_folders = new_folder_set();
            let mut i: usize = 0;
            assert(v@.take(0) =~= Seq::<Source>::empty());
            while i < v.len()
                invariant
                    i <= v@.len(),
                    folder_set(source_folders) == entries_dirs(crate::config::sources_model(v@.take(i as int))),
                decreases v@.len() - i,
            {
                assert(v@.take(i + 1).drop_last() =~= v@.take(i as int));
                let more = get_source_dirs(&v[i], None);
                extend_folders(&mut source_folders, more);
                proof {
                    let prev = crate::config::sources_model(v@.take(i as int));
                    let next = crate::config::sources_model(v@.take(i + 1));
                    assert(next.drop_last() =~= prev);
                }
                i = i + 1;
            }
            assert(v@.take(i as int) =~= v@);
            source_folders
        },
    }
}

/// How the files of a source folder are read: the folder, and whether its
/// sub folders are read too (only when it says `subdirs: true`); folders of
/// type `dev` are not read at all.
pub open spec fn read_plan(source: PackageSourceModel) -> Option<(Seq<char>, bool)> {
    if source.type_ == Some("dev"@) {
        None
    } else {
        Some(
            (
                source.dir,
                match source.subdirs {
                    Some(SubdirsModel::Recurse(b)) => b,
                    _ => false,
                },
            ),
        )
    }
}

/// How to read the files of a source folder (see `read_plan`).
pub fn source_read_plan(source: &PackageSource) -> (r: Option<(String, bool)>)
    ensures
        match r {
            Some((dir, recurse)) => read_plan(package_source_model(*source)) == Some((dir@, recurse)),
            None => read_plan(package_source_model(*source)) is None,
        },
{
    let recurse = match &source.subdirs {
        Some(Subdirs::Recurse(subdirs)) => *subdirs,
        _ => false,
    };
    let is_dev = match &source.type_ {
        Some(t) => crate::text::str_equals(t.as_str(), "dev"),
        None => false,
    };
    if is_dev {
        None
    } else {
        Some((source.dir.clone(), recurse))
    }
}

#[verifier::external_type_specification]
#[verifier::external_body]
#[verifier::reject_recursive_types(Key)]
#[verifier::reject_recursive_types(Value)]
#[verifier::reject_recursive_types(Hashing)]
pub struct ExAHashMap<Key, Value, Hashing>(ahash::AHashMap<Key, Value, Hashing>);

/// The modules of a build, by name.
pub uninterp spec fn module_map(m: ahash::AHashMap<String, Module>) -> Map<Seq<char>, Module>;

/// `HashMap::remove` through `AHashMap`: the module of that name, if any,
/// comes out and is no longer in the map.
#[verifier::external_body]
pub(crate) fn take_module(m: &mut ahash::AHashMap<String, Module>, name: &String) -> (r: Option<Module>)
    ensures
        module_map(*final(m)) == module_map(*old(m)).remove(name@),
        r == (if module_map(*old(m)).contains_key(name@) {
            Some(module_map(*old(m))[name@])
        } else {
            None
        }),
{
    m.remove(name)
}

/// `HashMap::insert` through `AHashMap`: the module is in the map under that
/// name afterwards, replacing any module of that name.
#[verifier::external_body]
pub(crate) fn put_module(m: &mut ahash::AHashMap<String, Module>, name: String, module: Module)
    ensures
        module_map(*final(m)) == module_map(*old(m)).insert(name@, module),
{
    m.insert(name, module);
}

/// What a source file of a package is: an implementation, or an interface
/// whose implementation file is its path without the last character
/// (`.resi` goes with `.res`, `.rei` with `.re`, `.mli` with `.ml`).
#[derive(Debug, PartialEq, Eq)]
pub enum SourceRole {
    Implementation,
    Interface { implementation: String },
}

pub fn source_role(file: &str) -> (r: SourceRole)
    requires
        crate::paths::extension(file@) is Some,
    ensures
        match r {
            SourceRole::Implementation => crate::helpers::implementation_extension(
                crate::paths::extension(file@).unwrap(),
            ),
            SourceRole::Interface { implementation } => !crate::helpers::implementation_extension(
                crate::paths::extension(file@).unwrap(),
            ) && implementation@ == file@.drop_last(),
        },
{
    let ext = match crate::paths::extension_of_path(file) {
        Some(e) => e,
        None => {
            proof {
                assert(false);
            }
            String::new()
        },
    };
    if crate::helpers::is_implementation_file(ext.as_str()) {
        SourceRole::Implementation
    } else {
        let cs = crate::text::chars_of(file);
        assert(cs@.len() > 0) by {
            assert(crate::paths::file_name(file@) is Some);
            assert(crate::paths::file_name_span(file@) is Some);
            crate::paths::lemma_spans_ok_pub(file@);
        }
        SourceRole::Interface {
            implementation: crate::text::string_from_range(&cs, 0, cs.len() - 1),
        }
    }
}

/// A fresh module for a source file: nothing parsed or compiled yet,
/// everything dirty, no dependencies known.
pub open spec fn fresh_module(
    m: Module,
    implementation: Implementation,
    interface: Option<Interface>,
    package_name: Seq<char>,
) -> bool {
    &&& m.source_type matches SourceType::SourceFile(sf) && sf.implementation == implementation && sf.interface == interface
        && sf.embeds@.len() == 0
    &&& name_set(m.deps) == Set::<Seq<char>>::empty()
    &&& name_set(m.dependents) == Set::<Seq<char>>::empty()
    &&& m.package_name@ == package_name
    &&& m.compile_dirty
    &&& m.last_compiled_cmi is None
    &&& m.last_compiled_cmt is None
}

/// A file found on disk, not parsed or compiled yet.
pub open spec fn pending_file(path: Seq<char>, last_modified: u128) -> (Seq<char>, ParseState, CompileState, u128, bool) {
    (path, ParseState::Pending, CompileState::Pending, last_modified, true)
}

pub open spec fn implementation_fields(i: Implementation) -> (Seq<char>, ParseState, CompileState, u128, bool) {
    (i.path@, i.parse_state, i.compile_state, i.last_modified, i.parse_dirty)
}

pub open spec fn interface_fields(i: Interface) -> (Seq<char>, ParseState, CompileState, u128, bool) {
    (i.path@, i.parse_state, i.compile_state, i.last_modified, i.parse_dirty)
}

fn pending_implementation(path: String, last_modified: u128) -> (r: Implementation)
    ensures
        implementation_fields(r) == pending_file(path@, last_modified),
{
    Implementation {
        path,
        parse_state: ParseState::Pending,
        compile_state: CompileState::Pending,
        last_modified,
        parse_dirty: true,
    }
}

fn pending_interface(path: String, last_modified: u128) -> (r: Interface)
    ensures
        interface_fields(r) == pending_file(path@, last_modified),
{
    Interface {
        path,
        parse_state: ParseState::Pending,
        compile_state: CompileState::Pending,
        last_modified,
        parse_dirty: true,
    }
}

fn new_module(implementation: Implementation, interface: Option<Interface>, package_name: &String) -> (r: Module)
    ensures
        fresh_module(r, implementation, interface, package_name@),
{
    Module {
        source_type: SourceType::SourceFile(SourceFile { implementation, interface, embeds: Vec::new() }),
        deps: crate::clean::new_name_set(),
        dependents: crate::clean::new_name_set(),
        package_name: package_name.clone(),
        compile_dirty: true,
        last_compiled_cmi: None,
        last_compiled_cmt: None,
    }
}

/// A fresh module for an implementation file alone, to be parsed.
pub(crate) fn new_pending_module(path: &String, last_modified: u128, package_name: &String) -> (r: Module)
    ensures
        r.source_type matches SourceType::SourceFile(sf) && sf.interface is None && implementation_fields(sf.implementation)
            == pending_file(path@, last_modified) && fresh_module(r, sf.implementation, None, package_name@),
{
    new_module(pending_implementation(path.clone(), last_modified), None, package_name)
}

/// Records an implementation file of a package under its module name: a new
/// module for it, or, for a module that has it already, its new time and a
/// dirty mark. Another implementation file for the same module is refused:
/// the path that the module has is returned and nothing changes.
pub fn register_implementation(
    modules: &mut ahash::AHashMap<String, Module>,
    module_name: String,
    file: &String,
    last_modified: u128,
    package_name: &String,
) -> (r: Result<(), String>)
    ensures
        ({
            let before = module_map(*old(modules));
            let after = module_map(*final(modules));
            if !before.contains_key(module_name@) {
                &&& r is Ok
                &&& after.dom() == before.dom().insert(module_name@)
                &&& forall|k: Seq<char>| k != module_name@ && #[trigger] before.contains_key(k) ==> after[k] == before[k]
                &&& after[module_name@].source_type matches SourceType::SourceFile(sf) && sf.interface is None
                    && implementation_fields(sf.implementation) == pending_file(file@, last_modified)
                    && fresh_module(after[module_name@], sf.implementation, None, package_name@)
            } else {
                match before[module_name@].source_type {
                    SourceType::SourceFile(sf) => if sf.implementation.path@ != file@ {
                        r == Err::<(), String>(sf.implementation.path) && after == before
                    } else {
                        &&& r is Ok
                        &&& after.dom() == before.dom()
                        &&& forall|k: Seq<char>| k != module_name@ && #[trigger] before.contains_key(k) ==> after[k] == before[k]
                        &&& after[module_name@].source_type matches SourceType::SourceFile(nf)
                            && nf.interface == sf.interface && nf.embeds == sf.embeds
                            && implementation_fields(nf.implementation) == (
                            file@,
                            sf.implementation.parse_state,
                            sf.implementation.compile_state,
                            last_modified,
                            true,
                        )
                        &&& after[module_name@].deps == before[module_name@].deps
                        &&& after[module_name@].dependents == before[module_name@].dependents
                        &&& after[module_name@].package_name == before[module_name@].package_name
                        &&& after[module_name@].compile_dirty == before[module_name@].compile_dirty
                        &&& after[module_name@].last_compiled_cmi == before[module_name@].last_compiled_cmi
                        &&& after[module_name@].last_compiled_cmt == before[module_name@].last_compiled_cmt
                    },
                    SourceType::MlMap(_) => r is Ok && after == before,
                }
            }
        }),
{
    match take_module(modules, &module_name) {
        None => {
            let m = new_module(pending_implementation(file.clone(), last_modified), None, package_name);
            put_module(modules, module_name, m);
            Ok(())
        },
        Some(mut module) => {
            let ghost taken = module;
            let mut result: Result<(), String> = Ok(());
            match &mut module.source_type {
                SourceType::SourceFile(source_file) => {
                    if !crate::text::str_equals(source_file.implementation.path.as_str(), file.as_str()) {
                        result = Err(source_file.implementation.path.clone());
                    } else {
                        source_file.implementation.path = file.clone();
                        source_file.implementation.last_modified = last_modified;
                        source_file.implementation.parse_dirty = true;
                    }
                },
                SourceType::MlMap(_) => {},
            }
            put_module(modules, module_name, module);
            proof {
                let before = module_map(*old(modules));
                if result is Err || taken.source_type is MlMap {
                    assert(module == taken);
                    assert(module_map(*modules) =~= before);
                }
            }
            result
        },
    }
}

/// Records an interface file of a package under its module name, together
/// with the path of its implementation file: a new module for both, or the
/// interface added to the module that has the implementation.
pub fn register_interface(
    modules: &mut ahash::AHashMap<String, Module>,
    module_name: String,
    file: &String,
    implementation: String,
    last_modified: u128,
    package_name: &String,
)
    ensures
        ({
            let before = module_map(*old(modules));
            let after = module_map(*final(modules));
            &&& after.dom() == before.dom().insert(module_name@)
            &&& forall|k: Seq<char>| k != module_name@ && #[trigger] before.contains_key(k) ==> after[k] == before[k]
            &&& if !before.contains_key(module_name@) {
                after[module_name@].source_type matches SourceType::SourceFile(sf) && (sf.interface matches Some(i)
                    && interface_fields(i) == pending_file(file@, last_modified))
                    && implementation_fields(sf.implementation) == pending_file(implementation@, last_modified)
                    && fresh_module(after[module_name@], sf.implementation, sf.interface, package_name@)
            } else {
                match before[module_name@].source_type {
                    SourceType::SourceFile(sf) => {
                        &&& after[module_name@].source_type matches SourceType::SourceFile(nf)
                            && nf.implementation == sf.implementation && nf.embeds == sf.embeds && (nf.interface matches Some(i)
                            && interface_fields(i) == pending_file(file@, last_modified))
                        &&& after[module_name@].deps == before[module_name@].deps
                        &&& after[module_name@].dependents == before[module_name@].dependents
                        &&& after[module_name@].package_name == before[module_name@].package_name
                        &&& after[module_name@].compile_dirty == before[module_name@].compile_dirty
                        &&& after[module_name@].last_compiled_cmi == before[module_name@].last_compiled_cmi
                        &&& after[module_name@].last_compiled_cmt == before[module_name@].last_compiled_cmt
                    },
                    SourceType::MlMap(_) => after[module_name@] == before[module_name@],
                }
            }
        }),
{
    match take_module(modules, &module_name) {
        None => {
            let m = new_module(
                pending_implementation(implementation, last_modified),
                Some(pending_interface(file.clone(), last_modified)),
                package_name,
            );
            put_module(modules, module_name, m);
        },
        Some(mut module) => {
            match &mut module.source_type {
                SourceType::SourceFile(source_file) => {
                    source_file.interface = Some(pending_interface(file.clone(), last_modified));
                },
                SourceType::MlMap(_) => {},
            }
            put_module(modules, module_name, module);
        },
    }
}

/// The names of the modules, each once, in the order the map is walked
/// (which the map does not fix).
#[verifier::external_body]
pub(crate) fn module_names(m: &ahash::AHashMap<String, Module>) -> (r: Vec<String>)
    ensures
        r.deep_view().no_duplicates(),
        r.deep_view().to_set() == module_map(*m).dom(),
{
    m.keys().cloned().collect()
}

/// `HashMap::get` through `AHashMap`: the module of that name, if any.
#[verifier::external_body]
pub(crate) fn get_module<'a>(m: &'a ahash::AHashMap<String, Module>, name: &String) -> (r: Option<&'a Module>)
    ensures
        match r {
            Some(x) => module_map(*m).contains_key(name@) && *x == module_map(*m)[name@],
            None => !module_map(*m).contains_key(name@),
        },
{
    m.get(name)
}

/// The packages that have a module to compile.
pub open spec fn dirty_packages(modules: Map<Seq<char>, Module>) -> Set<Seq<char>> {
    Set::new(
        |p: Seq<char>|
            exists|k: Seq<char>|
                modules.contains_key(k) && #[trigger] modules[k].compile_dirty && modules[k].package_name@ == p,
    )
}

/// The namespace maps to compile again: those of packages that have a module
/// to compile.
pub open spec fn mlmaps_due(modules: Map<Seq<char>, Module>) -> Set<Seq<char>> {
    Set::new(
        |k: Seq<char>|
            modules.contains_key(k) && modules[k].source_type is MlMap && dirty_packages(modules).contains(
                modules[k].package_name@,
            ),
    )
}

pub(crate) fn contains_string(v: &Vec<String>, x: &String) -> (r: bool)
    ensures
        r == v.deep_view().contains(x@),
{
    let mut i: usize = 0;
    while i < v.len()
        invariant
            i <= v@.len(),
            forall|j: int| 0 <= j < i ==> v.deep_view()[j] != x@,
        decreases v@.len() - i,
    {
        if crate::text::str_equals(v[i].as_str(), x.as_str()) {
            assert(v.deep_view()[i as int] == x@);
            return true;
        }
        i = i + 1;
    }
    false
}

proof fn lemma_push_contains(s: Seq<Seq<char>>, x: Seq<char>, p: Seq<char>)
    ensures
        s.push(x).contains(p) <==> (s.contains(p) || x == p),
{
    if s.push(x).contains(p) {
        let idx = choose|idx: int| 0 <= idx < s.push(x).len() && s.push(x)[idx] == p;
        if idx < s.len() {
            assert(s[idx] == p);
        }
    }
    if s.contains(p) {
        let idx = choose|idx: int| 0 <= idx < s.len() && s[idx] == p;
        assert(s.push(x)[idx] == p);
    }
    if x == p {
        assert(s.push(x)[s.len() as int] == p);
    }
}

/// The packages of the first `i` of `names` whose modules are to be compiled.
pub open spec fn dirty_among(map: Map<Seq<char>, Module>, names: Seq<Seq<char>>, i: int, p: Seq<char>) -> bool {
    exists|j: int| 0 <= j < i && map[#[trigger] names[j]].compile_dirty && map[names[j]].package_name@ == p
}

/// The namespace maps due among the first `k` of `names`.
pub open spec fn due_among(map: Map<Seq<char>, Module>, names: Seq<Seq<char>>, k: int, n: Seq<char>) -> bool {
    exists|j: int| 0 <= j < k && #[trigger] names[j] == n && mlmaps_due(map).contains(n)
}

/// The names of the namespace maps that must be compiled again (see
/// `mlmaps_due`), each once.
pub fn mlmaps_to_compile(modules: &ahash::AHashMap<String, Module>) -> (r: Vec<String>)
    ensures
        r.deep_view().to_set() == mlmaps_due(module_map(*modules)),
        r.deep_view().no_duplicates(),
{
    let ghost map = module_map(*modules);
    let names = module_names(modules);
    let ghost nv = names.deep_view();
    let mut dirty: Vec<String> = Vec::new();
    let mut i: usize = 0;
    while i < names.len()
        invariant
            map == module_map(*modules),
            nv == names.deep_view(),
            nv.to_set() == map.dom(),
            i <= names@.len(),
            forall|p: Seq<char>| #[trigger] dirty.deep_view().contains(p) <==> dirty_among(map, nv, i as int, p),
        decreases names@.len() - i,
    {
        let ghost before = dirty.deep_view();
        let ghost name = nv[i as int];
        assert(nv.to_set().contains(name));
        assert(name == names@[i as int]@);
        let ghost x = map[name];
        match get_module(modules, &names[i]) {
            Some(m) => {
                if m.compile_dirty {
                    dirty.push(m.package_name.clone());
                    assert(dirty.deep_view() =~= before.push(x.package_name@));
                } else {
                    assert(!x.compile_dirty);
                }
            },
            None => {
                assert(false);
            },
        }
        proof {
            assert forall|p: Seq<char>| #[trigger] dirty.deep_view().contains(p) <==> dirty_among(
                map,
                nv,
                i + 1,
                p,
            ) by {
                if x.compile_dirty {
                    lemma_push_contains(before, x.package_name@, p);
                }
                if dirty_among(map, nv, i + 1, p) {
                    let j = choose|j: int|
                        0 <= j < i + 1 && map[#[trigger] nv[j]].compile_dirty && map[nv[j]].package_name@ == p;
                    if j < i {
                        assert(dirty_among(map, nv, i as int, p));
                    }
                }
                if dirty.deep_view().contains(p) {
                    if before.contains(p) {
                        let j = choose|j: int|
                            0 <= j < i && map[#[trigger] nv[j]].compile_dirty && map[nv[j]].package_name@ == p;
                        assert(0 <= j < i + 1 && map[nv[j]].compile_dirty && map[nv[j]].package_name@ == p);
                    } else {
                        assert(map[nv[i as int]].compile_dirty && map[nv[i as int]].package_name@ == p);
                    }
                }
            }
        }
        i = i + 1;
    }
    proof {
        assert forall|p: Seq<char>| #[trigger] dirty.deep_view().contains(p) <==> dirty_packages(map).contains(p) by {
            if dirty_packages(map).contains(p) {
                let k = choose|k: Seq<char>| map.contains_key(k) && #[trigger] map[k].compile_dirty && map[k].package_name@ == p;
                assert(nv.to_set().contains(k));
                let j = choose|j: int| 0 <= j < nv.len() && nv[j] == k;
                assert(map[nv[j]].compile_dirty);
                assert(dirty_among(map, nv, i as int, p));
            }
            if dirty.deep_view().contains(p) {
                let j = choose|j: int| 0 <= j < i && map[#[trigger] nv[j]].compile_dirty && map[nv[j]].package_name@ == p;
                assert(nv.to_set().contains(nv[j]));
                assert(map.contains_key(nv[j]) && map[nv[j]].compile_dirty && map[nv[j]].package_name@ == p);
            }
        }
    }
    let mut out: Vec<String> = Vec::new();
    let mut k: usize = 0;
    while k < names.len()
        invariant
            map == module_map(*modules),
            nv == names.deep_view(),
            nv.to_set() == map.dom(),
            k <= names@.len(),
            forall|p: Seq<char>| #[trigger] dirty.deep_view().contains(p) <==> dirty_packages(map).contains(p),
            forall|n: Seq<char>| #[trigger] out.deep_view().contains(n) <==> due_among(map, nv, k as int, n),
            out.deep_view().no_duplicates(),
            nv.no_duplicates(),
        decreases names@.len() - k,
    {
        let ghost before = out.deep_view();
        let ghost name = nv[k as int];
        assert(nv.to_set().contains(name));
        assert(name == names@[k as int]@);
        let ghost x = map[name];
        let ghost pushed = false;
        match get_module(modules, &names[k]) {
            Some(m) => {
                let is_map = match &m.source_type {
                    SourceType::MlMap(_) => true,
                    _ => false,
                };
                if is_map && contains_string(&dirty, &m.package_name) {
                    proof {
                        if before.contains(name) {
                            let j = choose|j: int| 0 <= j < k && #[trigger] nv[j] == name && mlmaps_due(map).contains(name);
                            assert(nv[j] == nv[k as int]);
                        }
                        assert(!before.contains(name));
                    }
                    out.push(names[k].clone());
                    assert(out.deep_view() =~= before.push(name));
                    proof {
                        assert forall|a: int, b: int| 0 <= a < b < out.deep_view().len() implies out.deep_view()[a]
                            != out.deep_view()[b] by {
                            assert(out.deep_view()[a] == before[a]);
                            if b == before.len() {
                                assert(before.contains(before[a]));
                            } else {
                                assert(out.deep_view()[b] == before[b]);
                            }
                        }
                    }
                    proof {
                        pushed = true;
                    }
                    assert(mlmaps_due(map).contains(name));
                } else {
                    assert(!mlmaps_due(map).contains(name));
                }
            },
            None => {
                assert(false);
            },
        }
        proof {
            assert forall|n: Seq<char>| #[trigger] out.deep_view().contains(n) <==> due_among(map, nv, k + 1, n) by {
                if pushed {
                    lemma_push_contains(before, name, n);
                }
                if due_among(map, nv, k + 1, n) {
                    let j = choose|j: int| 0 <= j < k + 1 && #[trigger] nv[j] == n && mlmaps_due(map).contains(n);
                    if j < k {
                        assert(due_among(map, nv, k as int, n));
                    }
                }
                if out.deep_view().contains(n) {
                    if before.contains(n) {
                        let j = choose|j: int| 0 <= j < k && #[trigger] nv[j] == n && mlmaps_due(map).contains(n);
                        assert(0 <= j < k + 1 && nv[j] == n);
                    } else {
                        assert(nv[k as int] == n);
                    }
                }
            }
        }
        k = k + 1;
    }
    proof {
        assert forall|n: Seq<char>| #[trigger] out.deep_view().to_set().contains(n) <==> mlmaps_due(map).contains(n) by {
            if mlmaps_due(map).contains(n) {
                assert(nv.to_set().contains(n));
                let j = choose|j: int| 0 <= j < nv.len() && nv[j] == n;
                assert(due_among(map, nv, k as int, n));
                assert(out.deep_view().contains(n));
            }
            if out.deep_view().to_set().contains(n) {
                assert(out.deep_view().contains(n));
            }
        }
        assert(out.deep_view().to_set() =~= mlmaps_due(map));
    }
    out
}


/// A source file of a package (its path within the package) and its time.
pub struct PackageFile {
    pub path: String,
    pub last_modified: u128,
}

/// What the build reads of a package to register its modules: its name, its
/// namespace, its source files (each once) and the module names it lists.
pub struct PackageFiles {
    pub name: String,
    pub namespace: Namespace,
    pub files: Vec<PackageFile>,
    pub modules: Vec<String>,
}

/// The module a source file belongs to, under the package's namespace.
pub open spec fn file_module(f: PackageFile, ns: Namespace) -> Seq<char> {
    crate::helpers::module_name(f.path@, namespace_suffix(ns))
}

pub open spec fn is_implementation(f: PackageFile) -> bool {
    crate::helpers::implementation_extension(crate::paths::extension(f.path@).unwrap())
}

/// Interface file `g` has its implementation file (its path without the
/// last character) among the files.
pub open spec fn implementation_listed(files: Seq<PackageFile>, g: int) -> bool {
    exists|i: int| 0 <= i < files.len() && #[trigger] files[i].path@ == files[g].path@.drop_last()
}

/// The implementation path of a module of a source file.
pub open spec fn implementation_path(m: Module) -> Option<Seq<char>> {
    match m.source_type {
        SourceType::SourceFile(sf) => Some(sf.implementation.path@),
        SourceType::MlMap(_) => None,
    }
}

/// Module `m` has file `f` as its implementation, with its time and to be
/// parsed.
pub open spec fn holds_implementation(m: Module, f: PackageFile) -> bool {
    match m.source_type {
        SourceType::SourceFile(sf) => sf.implementation.path@ == f.path@ && sf.implementation.last_modified
            == f.last_modified && sf.implementation.parse_dirty,
        SourceType::MlMap(_) => false,
    }
}

pub open spec fn namespace_map_at(before: Map<Seq<char>, Module>, n: Seq<char>) -> bool {
    before.contains_key(n) && before[n].source_type is MlMap
}

/// Implementation file `i` clashes: its module, not a namespace map, has
/// another implementation file, either already or among the files.
pub open spec fn clashes(before: Map<Seq<char>, Module>, files: Seq<PackageFile>, ns: Namespace, i: int) -> bool {
    let n = file_module(files[i], ns);
    &&& 0 <= i < files.len()
    &&& is_implementation(files[i])
    &&& !namespace_map_at(before, n)
    &&& (before.contains_key(n) && implementation_path(before[n]) is Some && implementation_path(before[n]).unwrap()
        != files[i].path@) || exists|j: int|
        0 <= j < files.len() && is_implementation(files[j]) && #[trigger] file_module(files[j], ns) == n
            && files[j].path@ != files[i].path@
}

pub open spec fn files_ok(files: Seq<PackageFile>) -> bool {
    &&& forall|i: int| 0 <= i < files.len() ==> crate::paths::extension(#[trigger] files[i].path@) is Some
    &&& forall|i: int, j: int| 0 <= i < j < files.len() ==> #[trigger] files[i].path@ != #[trigger] files[j].path@
}

/// After the implementation files: each one's module (unless a namespace map)
/// has it as implementation, with its time and to be parsed; modules no
/// implementation file names are as they were.
pub open spec fn implementations_registered(
    before: Map<Seq<char>, Module>,
    after: Map<Seq<char>, Module>,
    files: Seq<PackageFile>,
    ns: Namespace,
    upto: int,
) -> bool {
    &&& forall|k: Seq<char>| #[trigger] after.contains_key(k) <==> before.contains_key(k) || exists|i: int|
        0 <= i < upto && is_implementation(files[i]) && #[trigger] file_module(files[i], ns) == k
    &&& forall|k: Seq<char>| #[trigger] before.contains_key(k) && !(exists|i: int|
        0 <= i < upto && is_implementation(files[i]) && #[trigger] file_module(files[i], ns) == k) ==> after[k] == before[k]
    &&& forall|i: int| 0 <= i < upto && is_implementation(files[i]) && !namespace_map_at(before, #[trigger] file_module(files[i], ns))
        ==> holds_implementation(after[file_module(files[i], ns)], files[i])
    &&& forall|i: int| 0 <= i < upto && is_implementation(files[i]) && namespace_map_at(before, #[trigger] file_module(files[i], ns))
        ==> after[file_module(files[i], ns)] == before[file_module(files[i], ns)]
}

fn register_implementations(
    modules: &mut ahash::AHashMap<String, Module>,
    pkg: &PackageFiles,
) -> (r: Result<(), String>)
    requires
        files_ok(pkg.files@),
    ensures
        r is Err <==> exists|i: int| #[trigger] clashes(module_map(*old(modules)), pkg.files@, pkg.namespace, i),
        r is Ok ==> implementations_registered(module_map(*old(modules)), module_map(*final(modules)), pkg.files@, pkg.namespace, pkg.files@.len() as int),
{
    let ghost before = module_map(*modules);
    let ghost fs = pkg.files@;
    let ghost ns = pkg.namespace;
    let suffix = pkg.namespace.to_suffix();
    let mut k: usize = 0;
    while k < pkg.files.len()
        invariant
            before == module_map(*old(modules)),
            fs == pkg.files@,
            ns == pkg.namespace,
            suffix.deep_view() == namespace_suffix(ns),
            files_ok(fs),
            k <= fs.len(),
            implementations_registered(before, module_map(*modules), fs, ns, k as int),
            forall|i: int| 0 <= i < k && is_implementation(fs[i]) && !namespace_map_at(before, file_module(fs[i], ns))
                && before.contains_key(file_module(fs[i], ns)) ==> implementation_path(before[#[trigger] file_module(fs[i], ns)])
                == Some(fs[i].path@),
            forall|i: int, j: int| 0 <= i < k && 0 <= j < k && is_implementation(fs[i]) && is_implementation(fs[j])
                && #[trigger] file_module(fs[i], ns) == #[trigger] file_module(fs[j], ns) && !namespace_map_at(before, file_module(fs[i], ns))
                ==> i == j,
        decreases fs.len() - k,
    {
        let f = &pkg.files[k];
        let ghost now = module_map(*modules);
        let ext = match crate::paths::extension_of_path(f.path.as_str()) {
            Some(e) => e,
            None => {
                proof { assert(crate::paths::extension(fs[k as int].path@) is Some); }
                String::new()
            },
        };
        assert(crate::paths::file_name(f.path@) is Some);
        if crate::helpers::is_implementation_file(ext.as_str()) {
            let name = crate::helpers::file_path_to_module_name(f.path.as_str(), &suffix);
            let ghost n = name@;
            assert(n == file_module(fs[k as int], ns));
            let res = register_implementation(modules, name, &f.path, f.last_modified, &pkg.name);
            if res.is_err() {
                proof {
                    assert(!namespace_map_at(now, n));
                    if now.contains_key(n) {
                        if before.contains_key(n) && !(exists|i: int|
                            0 <= i < k && is_implementation(fs[i]) && #[trigger] file_module(fs[i], ns) == n) {
                            assert(now[n] == before[n]);
                            assert(clashes(before, fs, ns, k as int));
                        } else {
                            let i = choose|i: int| 0 <= i < k && is_implementation(fs[i]) && #[trigger] file_module(fs[i], ns) == n;
                            assert(!namespace_map_at(before, file_module(fs[i], ns))) by {
                                if namespace_map_at(before, n) {
                                    assert(now[n] == before[n]);
                                }
                            }
                            assert(clashes(before, fs, ns, k as int));
                        }
                    }
                }
                return Err(res.unwrap_err());
            }
            proof {
                let after = module_map(*modules);
                let fk = fs[k as int];
                // Only a namespace map can have had this module from a file before this one.
                assert forall|i: int| 0 <= i < k && is_implementation(fs[i]) && #[trigger] file_module(fs[i], ns) == n
                    implies namespace_map_at(before, n) by {
                    if !namespace_map_at(before, n) {
                        assert(holds_implementation(now[n], fs[i]));
                        assert(fs[i].path@ != fk.path@);
                    }
                }
                let earlier = exists|i: int| 0 <= i < k && is_implementation(fs[i]) && #[trigger] file_module(fs[i], ns) == n;
                if !namespace_map_at(before, n) {
                    assert(!earlier);
                    if before.contains_key(n) {
                        assert(now[n] == before[n]);
                    } else {
                        assert(!now.contains_key(n));
                    }
                } else {
                    assert(now[n] == before[n]);
                    assert(after == now);
                }
                assert forall|key: Seq<char>| #[trigger] after.contains_key(key) <==> before.contains_key(key) || exists|i: int|
                    0 <= i < k + 1 && is_implementation(fs[i]) && #[trigger] file_module(fs[i], ns) == key by {
                    if exists|i: int| 0 <= i < k + 1 && is_implementation(fs[i]) && #[trigger] file_module(fs[i], ns) == key {
                        let i = choose|i: int| 0 <= i < k + 1 && is_implementation(fs[i]) && #[trigger] file_module(fs[i], ns) == key;
                        if i < k {
                            assert(now.contains_key(key));
                        }
                    }
                    if now.contains_key(key) && !before.contains_key(key) {
                        let i = choose|i: int| 0 <= i < k && is_implementation(fs[i]) && #[trigger] file_module(fs[i], ns) == key;
                        assert(0 <= i < k + 1);
                    }
                    if key == n {
                        assert(0 <= k < k + 1 && is_implementation(fs[k as int]) && file_module(fs[k as int], ns) == key);
                    }
                }
                assert forall|key: Seq<char>| #[trigger] before.contains_key(key) && !(exists|i: int|
                    0 <= i < k + 1 && is_implementation(fs[i]) && #[trigger] file_module(fs[i], ns) == key) implies after[key] == before[key] by {
                    assert(key != n);
                    assert(now.contains_key(key));
                    assert(after[key] == now[key]);
                    assert(!(exists|i: int| 0 <= i < k && is_implementation(fs[i]) && #[trigger] file_module(fs[i], ns) == key)) by {
                        if exists|i: int| 0 <= i < k && is_implementation(fs[i]) && #[trigger] file_module(fs[i], ns) == key {
                            let i = choose|i: int| 0 <= i < k && is_implementation(fs[i]) && #[trigger] file_module(fs[i], ns) == key;
                            assert(0 <= i < k + 1);
                        }
                    }
                }
                assert forall|i: int| 0 <= i < k + 1 && is_implementation(fs[i]) && !namespace_map_at(before, #[trigger] file_module(fs[i], ns))
                    implies holds_implementation(after[file_module(fs[i], ns)], fs[i]) by {
                    if i < k {
                        assert(file_module(fs[i], ns) != n);
                        let m = file_module(fs[i], ns);
                        assert(now.contains_key(m));
                        if !now.contains_key(n) {
                            assert(after[m] == now[m]);
                        } else if now[n].source_type is MlMap {
                            assert(after == now);
                        } else {
                            assert(after[m] == now[m]);
                        }
                    } else {
                        assert(i == k);
                        assert(after[n].source_type is SourceFile);
                        assert(implementation_fields(after[n].source_type->SourceFile_0.implementation).0 == fk.path@);
                    }
                }
                assert forall|i: int| 0 <= i < k + 1 && is_implementation(fs[i]) && namespace_map_at(before, #[trigger] file_module(fs[i], ns))
                    implies after[file_module(fs[i], ns)] == before[file_module(fs[i], ns)] by {
                    let m = file_module(fs[i], ns);
                    if m != n {
                        assert(now.contains_key(m));
                        if !now.contains_key(n) {
                            assert(after[m] == now[m]);
                        } else if now[n].source_type is MlMap {
                            assert(after == now);
                        } else {
                            assert(after[m] == now[m]);
                        }
                    }
                }
                assert(implementations_registered(before, after, fs, ns, k + 1));
            }
        } else {
            proof {
                assert(!is_implementation(fs[k as int]));
                let after = module_map(*modules);
                assert forall|key: Seq<char>| #[trigger] after.contains_key(key) <==> before.contains_key(key) || exists|i: int|
                    0 <= i < k + 1 && is_implementation(fs[i]) && #[trigger] file_module(fs[i], ns) == key by {
                    if exists|i: int| 0 <= i < k + 1 && is_implementation(fs[i]) && #[trigger] file_module(fs[i], ns) == key {
                        let i = choose|i: int| 0 <= i < k + 1 && is_implementation(fs[i]) && #[trigger] file_module(fs[i], ns) == key;
                        assert(i < k);
                    }
                    if after.contains_key(key) && !before.contains_key(key) {
                        let i = choose|i: int| 0 <= i < k && is_implementation(fs[i]) && #[trigger] file_module(fs[i], ns) == key;
                        assert(0 <= i < k + 1);
                    }
                }
                assert forall|key: Seq<char>| #[trigger] before.contains_key(key) && !(exists|i: int|
                    0 <= i < k + 1 && is_implementation(fs[i]) && #[trigger] file_module(fs[i], ns) == key) implies after[key] == before[key] by {
                    assert(!(exists|i: int| 0 <= i < k && is_implementation(fs[i]) && #[trigger] file_module(fs[i], ns) == key)) by {
                        if exists|i: int| 0 <= i < k && is_implementation(fs[i]) && #[trigger] file_module(fs[i], ns) == key {
                            let i = choose|i: int| 0 <= i < k && is_implementation(fs[i]) && #[trigger] file_module(fs[i], ns) == key;
                            assert(0 <= i < k + 1);
                        }
                    }
                }
            }
        }
        k = k + 1;
    }
    proof {
        assert forall|i: int| !#[trigger] clashes(before, fs, ns, i) by {
            if clashes(before, fs, ns, i) {
                let n = file_module(fs[i], ns);
                if before.contains_key(n) && implementation_path(before[n]) is Some && implementation_path(before[n]).unwrap() != fs[i].path@ {
                    assert(implementation_path(before[file_module(fs[i], ns)]) == Some(fs[i].path@));
                } else {
                    let j = choose|j: int| 0 <= j < fs.len() && is_implementation(fs[j]) && #[trigger] file_module(fs[j], ns) == n
                        && fs[j].path@ != fs[i].path@;
                    assert(i == j);
                }
            }
        }
    }
    Ok(())
}


/// File `g` is an interface whose implementation file is listed: it is
/// registered (an interface without one is skipped).
pub open spec fn listed_interface(files: Seq<PackageFile>, g: int) -> bool {
    0 <= g < files.len() && !is_implementation(files[g]) && implementation_listed(files, g)
}

/// No later registered interface among the first `upto` files has the same
/// module as `g`: `g` is the interface its module keeps.
pub open spec fn last_interface(files: Seq<PackageFile>, ns: Namespace, g: int, upto: int) -> bool {
    &&& listed_interface(files, g)
    &&& g < upto
    &&& forall|h: int| g < h < upto && listed_interface(files, h) ==> #[trigger] file_module(files[h], ns) != file_module(files[g], ns)
}

pub open spec fn implementation_of(m: Module) -> Option<Implementation> {
    match m.source_type {
        SourceType::SourceFile(sf) => Some(sf.implementation),
        SourceType::MlMap(_) => None,
    }
}

/// Module `m` has file `f` as its interface, not parsed or compiled yet.
pub open spec fn holds_interface(m: Module, f: PackageFile) -> bool {
    match m.source_type {
        SourceType::SourceFile(sf) => (sf.interface matches Some(i) && interface_fields(i) == pending_file(
            f.path@,
            f.last_modified,
        )),
        SourceType::MlMap(_) => false,
    }
}

pub open spec fn named_by_interface(files: Seq<PackageFile>, ns: Namespace, upto: int, k: Seq<char>) -> bool {
    exists|g: int| 0 <= g < upto && listed_interface(files, g) && #[trigger] file_module(files[g], ns) == k
}

/// After the interface files among the first `upto`: each module keeps the
/// last of its interfaces (a namespace map stays as it is), and keeps its
/// implementation; modules no interface names are as they were.
pub open spec fn interfaces_registered(
    before: Map<Seq<char>, Module>,
    after: Map<Seq<char>, Module>,
    files: Seq<PackageFile>,
    ns: Namespace,
    upto: int,
) -> bool {
    &&& forall|k: Seq<char>| #[trigger] after.contains_key(k) <==> before.contains_key(k) || named_by_interface(files, ns, upto, k)
    &&& forall|k: Seq<char>| #[trigger] before.contains_key(k) && !named_by_interface(files, ns, upto, k) ==> after[k] == before[k]
    &&& forall|k: Seq<char>| #[trigger] before.contains_key(k) && before[k].source_type is SourceFile ==> implementation_of(after[k])
        == implementation_of(before[k])
    &&& forall|k: Seq<char>| #[trigger] namespace_map_at(before, k) ==> after[k] == before[k]
    &&& forall|k: Seq<char>| #[trigger] after.contains_key(k) && !namespace_map_at(before, k) && named_by_interface(files, ns, upto, k)
        ==> after[k].source_type is SourceFile
    &&& forall|g: int| #[trigger] last_interface(files, ns, g, upto) && !namespace_map_at(before, file_module(files[g], ns))
        ==> holds_interface(after[file_module(files[g], ns)], files[g])
}

fn implementation_is_listed(files: &Vec<PackageFile>, implementation: &String) -> (r: bool)
    ensures
        r == exists|i: int| 0 <= i < files@.len() && #[trigger] files@[i].path@ == implementation@,
{
    let mut i: usize = 0;
    while i < files.len()
        invariant
            i <= files@.len(),
            forall|t: int| 0 <= t < i ==> #[trigger] files@[t].path@ != implementation@,
        decreases files@.len() - i,
    {
        if crate::text::str_equals(files[i].path.as_str(), implementation.as_str()) {
            return true;
        }
        i = i + 1;
    }
    false
}

fn register_interfaces(modules: &mut ahash::AHashMap<String, Module>, pkg: &PackageFiles)
    requires
        files_ok(pkg.files@),
    ensures
        interfaces_registered(module_map(*old(modules)), module_map(*final(modules)), pkg.files@, pkg.namespace, pkg.files@.len() as int),
{
    let ghost before = module_map(*modules);
    let ghost fs = pkg.files@;
    let ghost ns = pkg.namespace;
    let suffix = pkg.namespace.to_suffix();
    let mut k: usize = 0;
    while k < pkg.files.len()
        invariant
            before == module_map(*old(modules)),
            fs == pkg.files@,
            ns == pkg.namespace,
            suffix.deep_view() == namespace_suffix(ns),
            files_ok(fs),
            k <= fs.len(),
            interfaces_registered(before, module_map(*modules), fs, ns, k as int),
        decreases fs.len() - k,
    {
        let f = &pkg.files[k];
        let ghost now = module_map(*modules);
        assert(crate::paths::extension(fs[k as int].path@) is Some);
        match source_role(f.path.as_str()) {
            SourceRole::Implementation => {
                proof {
                    assert(!listed_interface(fs, k as int));
                    assert forall|key: Seq<char>| named_by_interface(fs, ns, k + 1, key) == named_by_interface(fs, ns, k as int, key) by {
                        if named_by_interface(fs, ns, k + 1, key) {
                            let g = choose|g: int| 0 <= g < k + 1 && listed_interface(fs, g) && #[trigger] file_module(fs[g], ns) == key;
                            assert(g != k);
                        }
                    }
                    assert forall|g: int| #[trigger] last_interface(fs, ns, g, k + 1) implies last_interface(fs, ns, g, k as int) by {
                        assert(g != k);
                    }
                }
            },
            SourceRole::Interface { implementation } => {
                if implementation_is_listed(&pkg.files, &implementation) {
                    assert(listed_interface(fs, k as int));
                    assert(crate::paths::file_name(f.path@) is Some);
                    let name = crate::helpers::file_path_to_module_name(f.path.as_str(), &suffix);
                    let ghost n = name@;
                    assert(n == file_module(fs[k as int], ns));
                    register_interface(modules, name, &f.path, implementation, f.last_modified, &pkg.name);
                    proof {
                        let after = module_map(*modules);
                        assert forall|key: Seq<char>| #[trigger] named_by_interface(fs, ns, k + 1, key) == (named_by_interface(fs, ns, k as int, key) || key == n) by {
                            if named_by_interface(fs, ns, k + 1, key) {
                                let g = choose|g: int| 0 <= g < k + 1 && listed_interface(fs, g) && #[trigger] file_module(fs[g], ns) == key;
                                if g < k {
                                    assert(named_by_interface(fs, ns, k as int, key));
                                }
                            }
                            if named_by_interface(fs, ns, k as int, key) {
                                let g = choose|g: int| 0 <= g < k && listed_interface(fs, g) && #[trigger] file_module(fs[g], ns) == key;
                                assert(0 <= g < k + 1);
                            }
                            if key == n {
                                assert(0 <= k < k + 1 && listed_interface(fs, k as int) && file_module(fs[k as int], ns) == key);
                            }
                        }
                        assert forall|key: Seq<char>| #[trigger] after.contains_key(key) <==> before.contains_key(key) || named_by_interface(fs, ns, k + 1, key) by {
                            if key != n && after.contains_key(key) {
                                assert(now.contains_key(key));
                            }
                        }
                        assert forall|key: Seq<char>| #[trigger] before.contains_key(key) && !named_by_interface(fs, ns, k + 1, key) implies after[key] == before[key] by {
                            assert(key != n);
                            assert(now.contains_key(key));
                        }
                        assert forall|key: Seq<char>| #[trigger] before.contains_key(key) && before[key].source_type is SourceFile implies implementation_of(after[key])
                            == implementation_of(before[key]) by {
                            assert(now.contains_key(key));
                            if key == n {
                                assert(implementation_of(now[key]) == implementation_of(before[key]));
                                assert(now[key].source_type is SourceFile);
                            }
                        }
                        assert forall|key: Seq<char>| #[trigger] namespace_map_at(before, key) implies after[key] == before[key] by {
                            assert(now.contains_key(key));
                            assert(now[key] == before[key]);
                        }
                        assert forall|key: Seq<char>| #[trigger] after.contains_key(key) && !namespace_map_at(before, key)
                            && named_by_interface(fs, ns, k + 1, key) implies after[key].source_type is SourceFile by {
                            if key != n {
                                assert(now.contains_key(key));
                                assert(named_by_interface(fs, ns, k as int, key));
                            } else if now.contains_key(n) {
                                if before.contains_key(n) && !named_by_interface(fs, ns, k as int, n) {
                                    assert(now[n] == before[n]);
                                }
                                assert(now[n].source_type is SourceFile);
                            }
                        }
                        assert forall|g: int| #[trigger] last_interface(fs, ns, g, k + 1) && !namespace_map_at(before, file_module(fs[g], ns))
                            implies holds_interface(after[file_module(fs[g], ns)], fs[g]) by {
                            let m = file_module(fs[g], ns);
                            if g == k {
                                if now.contains_key(n) {
                                    if before.contains_key(n) && !named_by_interface(fs, ns, k as int, n) {
                                        assert(now[n] == before[n]);
                                        assert(!namespace_map_at(before, n));
                                    } else if before.contains_key(n) {
                                        assert(now[n].source_type is SourceFile);
                                    } else {
                                        assert(now[n].source_type is SourceFile);
                                    }
                                }
                            } else {
                                assert(g < k);
                                assert(m != n);
                                assert(last_interface(fs, ns, g, k as int));
                                assert(now.contains_key(m)) by {
                                    assert(named_by_interface(fs, ns, k as int, m));
                                }
                            }
                        }
                    }
                } else {
                    proof {
                        assert(!listed_interface(fs, k as int));
                        assert forall|key: Seq<char>| named_by_interface(fs, ns, k + 1, key) == named_by_interface(fs, ns, k as int, key) by {
                            if named_by_interface(fs, ns, k + 1, key) {
                                let g = choose|g: int| 0 <= g < k + 1 && listed_interface(fs, g) && #[trigger] file_module(fs[g], ns) == key;
                                assert(g != k);
                            }
                        }
                        assert forall|g: int| #[trigger] last_interface(fs, ns, g, k + 1) implies last_interface(fs, ns, g, k as int) by {
                        assert(g != k);
                    }
                    }
                }
            },
        }
        k = k + 1;
    }
}


pub open spec fn named_by_implementation(files: Seq<PackageFile>, ns: Namespace, k: Seq<char>) -> bool {
    exists|i: int| 0 <= i < files.len() && is_implementation(files[i]) && #[trigger] file_module(files[i], ns) == k
}

/// Adds names to a set of names.
fn add_names(set: &mut ahash::AHashSet<String>, names: &Vec<String>)
    ensures
        name_set(*final(set)) == name_set(*old(set)).union(names.deep_view().to_set()),
{
    let ghost start = name_set(*set);
    let mut k: usize = 0;
    while k < names.len()
        invariant
            start == name_set(*old(set)),
            k <= names@.len(),
            name_set(*set) == start.union(names.deep_view().take(k as int).to_set()),
        decreases names@.len() - k,
    {
        let ghost before = name_set(*set);
        crate::clean::insert_name(set, names[k].clone());
        proof {
            let t1 = names.deep_view().take(k + 1);
            let t0 = names.deep_view().take(k as int);
            assert(t1 =~= t0.push(names@[k as int]@));
            assert(t1.to_set() =~= t0.to_set().insert(names@[k as int]@)) by {
                assert forall|x: Seq<char>| t1.to_set().contains(x) <==> t0.to_set().insert(names@[k as int]@).contains(x) by {
                    if t1.contains(x) {
                        let i = choose|i: int| 0 <= i < t1.len() && t1[i] == x;
                        if i < k {
                            assert(t0[i] == x);
                        }
                    }
                    if t0.contains(x) {
                        let i = choose|i: int| 0 <= i < t0.len() && t0[i] == x;
                        assert(t1[i] == x);
                    }
                    if x == names@[k as int]@ {
                        assert(t1[k as int] == x);
                    }
                }
            }
            assert(name_set(*set) =~= start.union(t1.to_set()));
        }
        k = k + 1;
    }
    assert(names.deep_view().take(k as int) =~= names.deep_view());
}

/// Registers the modules of a package: the module names it lists join
/// `module_names`; each implementation file is registered under its module,
/// then each interface file whose implementation file is listed (others are
/// skipped; of several interfaces of one module the last stays). A module of
/// a namespace map is left alone. Two implementation files for one module,
/// one registered before or both of this package, cannot be registered: the
/// caller checks with `find_clash` first.
pub fn register_package(
    modules: &mut ahash::AHashMap<String, Module>,
    module_names: &mut ahash::AHashSet<String>,
    pkg: &PackageFiles,
)
    requires
        files_ok(pkg.files@),
        forall|i: int| !#[trigger] clashes(module_map(*old(modules)), pkg.files@, pkg.namespace, i),
    ensures
        name_set(*final(module_names)) == name_set(*old(module_names)).union(pkg.modules.deep_view().to_set()),
        ({
            let before = module_map(*old(modules));
            let after = module_map(*final(modules));
            let fs = pkg.files@;
            let ns = pkg.namespace;
            &&& forall|k: Seq<char>| #[trigger] after.contains_key(k) <==> before.contains_key(k)
                || named_by_implementation(fs, ns, k) || named_by_interface(fs, ns, fs.len() as int, k)
            &&& forall|k: Seq<char>| #[trigger] before.contains_key(k) && !named_by_implementation(fs, ns, k)
                && !named_by_interface(fs, ns, fs.len() as int, k) ==> after[k] == before[k]
            &&& forall|k: Seq<char>| #[trigger] namespace_map_at(before, k) ==> after[k] == before[k]
            &&& forall|i: int| 0 <= i < fs.len() && is_implementation(fs[i]) && !namespace_map_at(before, #[trigger] file_module(fs[i], ns))
                ==> holds_implementation(after[file_module(fs[i], ns)], fs[i])
            &&& forall|g: int| #[trigger] last_interface(fs, ns, g, fs.len() as int) && !namespace_map_at(before, file_module(fs[g], ns))
                ==> holds_interface(after[file_module(fs[g], ns)], fs[g])
        }),
{
    add_names(module_names, &pkg.modules);
    let ghost before = module_map(*modules);
    let ghost fs = pkg.files@;
    let ghost ns = pkg.namespace;
    let ghost len = fs.len() as int;
    match register_implementations(modules, pkg) {
        Err(_) => {
            proof {
                let i = choose|i: int| #[trigger] clashes(before, fs, ns, i);
                assert(!clashes(before, fs, ns, i));
            }
        },
        Ok(()) => {
            let ghost mid = module_map(*modules);
            register_interfaces(modules, pkg);
            proof {
                let after = module_map(*modules);
                assert forall|k: Seq<char>| named_by_implementation(fs, ns, k) == exists|i: int|
                    0 <= i < len && is_implementation(fs[i]) && #[trigger] file_module(fs[i], ns) == k by {}
                assert forall|k: Seq<char>| #[trigger] namespace_map_at(mid, k) == namespace_map_at(before, k) by {
                    if namespace_map_at(before, k) {
                        if named_by_implementation(fs, ns, k) {
                            let i = choose|i: int| 0 <= i < fs.len() && is_implementation(fs[i]) && #[trigger] file_module(fs[i], ns) == k;
                            assert(mid[file_module(fs[i], ns)] == before[file_module(fs[i], ns)]);
                        }
                    } else if mid.contains_key(k) {
                        if named_by_implementation(fs, ns, k) {
                            let i = choose|i: int| 0 <= i < fs.len() && is_implementation(fs[i]) && #[trigger] file_module(fs[i], ns) == k;
                            assert(holds_implementation(mid[file_module(fs[i], ns)], fs[i]));
                        } else {
                            assert(before.contains_key(k));
                        }
                    }
                }
                assert forall|k: Seq<char>| #[trigger] after.contains_key(k) <==> before.contains_key(k)
                    || named_by_implementation(fs, ns, k) || named_by_interface(fs, ns, len, k) by {
                    assert(mid.contains_key(k) <==> before.contains_key(k) || named_by_implementation(fs, ns, k));
                }
                assert forall|k: Seq<char>| #[trigger] before.contains_key(k) && !named_by_implementation(fs, ns, k)
                    && !named_by_interface(fs, ns, len, k) implies after[k] == before[k] by {
                    assert(mid.contains_key(k));
                    assert(mid[k] == before[k]);
                }
                assert forall|k: Seq<char>| #[trigger] namespace_map_at(before, k) implies after[k] == before[k] by {
                    assert(namespace_map_at(mid, k));
                    if named_by_implementation(fs, ns, k) {
                        let i = choose|i: int| 0 <= i < fs.len() && is_implementation(fs[i]) && #[trigger] file_module(fs[i], ns) == k;
                        assert(mid[file_module(fs[i], ns)] == before[file_module(fs[i], ns)]);
                    }
                }
                assert forall|i: int| 0 <= i < len && is_implementation(fs[i]) && !namespace_map_at(before, #[trigger] file_module(fs[i], ns))
                    implies holds_implementation(after[file_module(fs[i], ns)], fs[i]) by {
                    let m = file_module(fs[i], ns);
                    assert(holds_implementation(mid[m], fs[i]));
                    assert(mid.contains_key(m));
                    assert(mid[m].source_type is SourceFile);
                    assert(implementation_of(after[m]) == implementation_of(mid[m]));
                    assert(after[m].source_type is SourceFile);
                }
                assert forall|g: int| #[trigger] last_interface(fs, ns, g, len) && !namespace_map_at(before, file_module(fs[g], ns))
                    implies holds_interface(after[file_module(fs[g], ns)], fs[g]) by {
                    assert(!namespace_map_at(mid, file_module(fs[g], ns)));
                }
            }
        },
    }
}


/// The dependencies a configuration lists (`bs-dependencies`).
pub open spec fn listed_dependencies(config: Config) -> Seq<Seq<char>> {
    match config.bs_dependencies {
        Some(v) => v.deep_view(),
        None => Seq::empty(),
    }
}

/// The dependency is listed among the pinned ones.
pub open spec fn pinned_in(config: Config, name: Seq<char>) -> bool {
    match config.pinned_dependencies {
        Some(v) => v.deep_view().contains(name),
        None => false,
    }
}

/// The dependencies of `deps` not among `known`, in order.
pub open spec fn unknown_dependencies(deps: Seq<Seq<char>>, known: Seq<Seq<char>>) -> Seq<Seq<char>>
    decreases deps.len(),
{
    if deps.len() == 0 {
        Seq::empty()
    } else if known.contains(deps.last()) {
        unknown_dependencies(deps.drop_last(), known)
    } else {
        unknown_dependencies(deps.drop_last(), known).push(deps.last())
    }
}

/// The dependencies of a package still to be read into the package tree:
/// those it lists that the tree does not hold yet (`known`), in order, each
/// with whether the package pins it (by the name it is listed under).
pub fn dependencies_to_read(config: &Config, known: &Vec<String>) -> (r: Vec<(String, bool)>)
    ensures
        r@.map_values(|d: (String, bool)| d.0@) == unknown_dependencies(listed_dependencies(*config), known.deep_view()),
        forall|k: int| 0 <= k < r@.len() ==> #[trigger] r@[k].1 == pinned_in(*config, r@[k].0@),
{
    let mut out: Vec<(String, bool)> = Vec::new();
    let empty: Vec<String> = Vec::new();
    let deps = match &config.bs_dependencies {
        Some(v) => v,
        None => &empty,
    };
    let ghost dv = deps.deep_view();
    assert(dv == listed_dependencies(*config));
    let mut k: usize = 0;
    while k < deps.len()
        invariant
            dv == deps.deep_view(),
            dv == listed_dependencies(*config),
            k <= dv.len(),
            out@.map_values(|d: (String, bool)| d.0@) == unknown_dependencies(dv.take(k as int), known.deep_view()),
            forall|t: int| 0 <= t < out@.len() ==> #[trigger] out@[t].1 == pinned_in(*config, out@[t].0@),
        decreases dv.len() - k,
    {
        let ghost before = out@;
        let ghost t = dv.take(k + 1);
        assert(t.drop_last() =~= dv.take(k as int));
        assert(t.last() == deps@[k as int]@);
        let name = &deps[k];
        if !contains_string(known, name) {
            let pinned = match &config.pinned_dependencies {
                Some(p) => contains_string(p, name),
                None => false,
            };
            out.push((name.clone(), pinned));
            assert(out@.map_values(|d: (String, bool)| d.0@) =~= before.map_values(|d: (String, bool)| d.0@).push(name@));
        }
        k = k + 1;
    }
    assert(dv.take(k as int) =~= dv);
    out
}

/// The modules a package has: that of each of its source files, under its
/// namespace, then the namespace itself when it has one.
pub fn package_modules(files: &Vec<String>, namespace: &Namespace) -> (r: Vec<String>)
    requires
        forall|i: int| 0 <= i < files@.len() ==> crate::paths::file_name(#[trigger] files@[i]@) is Some,
    ensures
        r.deep_view() == files.deep_view().map_values(|f: Seq<char>| crate::helpers::module_name(f, namespace_suffix(*namespace)))
            + match namespace_suffix(*namespace) {
            Some(s) => seq![s],
            None => Seq::empty(),
        },
{
    let suffix = namespace.to_suffix();
    let mut out: Vec<String> = Vec::new();
    let mut k: usize = 0;
    while k < files.len()
        invariant
            suffix.deep_view() == namespace_suffix(*namespace),
            forall|i: int| 0 <= i < files@.len() ==> crate::paths::file_name(#[trigger] files@[i]@) is Some,
            k <= files@.len(),
            out.deep_view() == files.deep_view().take(k as int).map_values(|f: Seq<char>| crate::helpers::module_name(f, namespace_suffix(*namespace))),
        decreases files@.len() - k,
    {
        let ghost before = out.deep_view();
        let name = crate::helpers::file_path_to_module_name(files[k].as_str(), &suffix);
        assert(name@ == crate::helpers::module_name(files@[k as int]@, namespace_suffix(*namespace)));
        out.push(name);
        assert(out.deep_view() =~= before.push(crate::helpers::module_name(files@[k as int]@, namespace_suffix(*namespace))));
        assert(files.deep_view().take(k + 1) =~= files.deep_view().take(k as int).push(files@[k as int]@));
        assert(files.deep_view().take(k + 1).map_values(|f: Seq<char>| crate::helpers::module_name(f, namespace_suffix(*namespace))) =~= files.deep_view().take(k as int).map_values(|f: Seq<char>| crate::helpers::module_name(f, namespace_suffix(*namespace))).push(crate::helpers::module_name(files@[k as int]@, namespace_suffix(*namespace))));
        k = k + 1;
    }
    assert(files.deep_view().take(k as int) =~= files.deep_view());
    let ghost body = out.deep_view();
    match suffix {
        Some(s) => {
            out.push(s);
            assert(out.deep_view() =~= body + seq![namespace_suffix(*namespace).unwrap()]);
        },
        None => {
            assert(out.deep_view() =~= body + Seq::<Seq<char>>::empty());
        },
    }
    out
}


fn file_is_implementation(f: &PackageFile) -> (r: bool)
    requires
        crate::paths::extension(f.path@) is Some,
    ensures
        r == is_implementation(*f),
{
    match crate::paths::extension_of_path(f.path.as_str()) {
        Some(e) => crate::helpers::is_implementation_file(e.as_str()),
        None => false,
    }
}

/// Whether the package's implementation files clash (see `clashes`): the
/// path of one that does, if any. Registering a package needs none.
pub fn find_clash(modules: &ahash::AHashMap<String, Module>, pkg: &PackageFiles) -> (r: Option<String>)
    requires
        files_ok(pkg.files@),
    ensures
        r is None <==> forall|i: int| !#[trigger] clashes(module_map(*modules), pkg.files@, pkg.namespace, i),
        r matches Some(p) ==> exists|i: int| #[trigger] clashes(module_map(*modules), pkg.files@, pkg.namespace, i)
            && pkg.files@[i].path@ == p@,
{
    let ghost map = module_map(*modules);
    let ghost fs = pkg.files@;
    let ghost ns = pkg.namespace;
    let suffix = pkg.namespace.to_suffix();
    let n = pkg.files.len();
    let mut i: usize = 0;
    while i < n
        invariant
            map == module_map(*modules),
            fs == pkg.files@,
            ns == pkg.namespace,
            n == fs.len(),
            suffix.deep_view() == namespace_suffix(ns),
            files_ok(fs),
            i <= n,
            forall|t: int| 0 <= t < i ==> !#[trigger] clashes(map, fs, ns, t),
        decreases n - i,
    {
        let f = &pkg.files[i];
        assert(crate::paths::extension(fs[i as int].path@) is Some);
        if file_is_implementation(f) {
            assert(crate::paths::file_name(f.path@) is Some);
            let name = crate::helpers::file_path_to_module_name(f.path.as_str(), &suffix);
            assert(name@ == file_module(fs[i as int], ns));
            let mut is_map = false;
            match crate::packages::get_module(modules, &name) {
                Some(m) => match &m.source_type {
                    SourceType::MlMap(_) => {
                        is_map = true;
                    },
                    SourceType::SourceFile(sf) => {
                        if !crate::text::str_equals(sf.implementation.path.as_str(), f.path.as_str()) {
                            assert(clashes(map, fs, ns, i as int));
                            return Some(f.path.clone());
                        }
                    },
                },
                None => {},
            }
            if !is_map {
                let mut j: usize = 0;
                while j < n
                    invariant
                        map == module_map(*modules),
                        fs == pkg.files@,
                        ns == pkg.namespace,
                        n == fs.len(),
                        suffix.deep_view() == namespace_suffix(ns),
                        files_ok(fs),
                        i < n,
                        j <= n,
                        *f == fs[i as int],
                        name@ == file_module(fs[i as int], ns),
                        is_implementation(fs[i as int]),
                        !namespace_map_at(map, name@),
                        !(map.contains_key(name@) && implementation_path(map[name@]) is Some
                            && implementation_path(map[name@]).unwrap() != fs[i as int].path@),
                        forall|u: int| 0 <= u < j ==> !(is_implementation(fs[u]) && #[trigger] file_module(fs[u], ns) == name@
                            && fs[u].path@ != fs[i as int].path@),
                    decreases n - j,
                {
                    let g = &pkg.files[j];
                    assert(crate::paths::extension(fs[j as int].path@) is Some);
                    if file_is_implementation(g) {
                        assert(crate::paths::file_name(g.path@) is Some);
                        let other = crate::helpers::file_path_to_module_name(g.path.as_str(), &suffix);
                        assert(other@ == file_module(fs[j as int], ns));
                        if crate::text::str_equals(other.as_str(), name.as_str())
                            && !crate::text::str_equals(g.path.as_str(), f.path.as_str()) {
                            assert(0 <= j < fs.len() && is_implementation(fs[j as int]) && file_module(fs[j as int], ns) == name@
                                && fs[j as int].path@ != fs[i as int].path@);
                            assert(clashes(map, fs, ns, i as int));
                            return Some(f.path.clone());
                        }
                    }
                    j = j + 1;
                }
                assert(!clashes(map, fs, ns, i as int)) by {
                    if clashes(map, fs, ns, i as int) {
                        let u = choose|u: int| 0 <= u < fs.len() && is_implementation(fs[u]) && #[trigger] file_module(fs[u], ns) == name@
                            && fs[u].path@ != fs[i as int].path@;
                        assert(!(is_implementation(fs[u]) && file_module(fs[u], ns) == name@ && fs[u].path@ != fs[i as int].path@));
                    }
                }
            } else {
                assert(namespace_map_at(map, name@));
                assert(!clashes(map, fs, ns, i as int));
            }
        } else {
            assert(!clashes(map, fs, ns, i as int));
        }
        i = i + 1;
    }
    proof {
        assert forall|t: int| !#[trigger] clashes(map, fs, ns, t) by {
            if 0 <= t < n {
            }
        }
    }
    None
}

} // verus!
