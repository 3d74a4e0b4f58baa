//! Cleaning up compiler assets: which modules failed, which are unchanged
//! since their last compile, and which were deleted since the last build.
use vstd::prelude::*;
use crate::build_types::{CompileState, Implementation, Interface, Module, ParseState, SourceFile, SourceType};
use crate::helpers::namespace_of_module_name;
use crate::text::{ends_with, trim_start};
use crate::packages::{module_map, module_names, take_module, put_module, contains_string};

verus! {

pub open spec fn parse_failed(s: ParseState) -> bool {
    s == ParseState::ParseError || s == ParseState::Warning
}

pub open spec fn compile_failed(s: CompileState) -> bool {
    s == CompileState::Error || s == CompileState::Warning
}

/// A source module whose implementation or interface did not parse cleanly
/// (an error, or warnings).
pub open spec fn module_failed_to_parse(m: Module) -> bool {
    match m.source_type {
        SourceType::SourceFile(sf) => parse_failed(sf.implementation.parse_state) || (
        sf.interface matches Some(i) && parse_failed(i.parse_state)),
        SourceType::MlMap(_) => false,
    }
}

/// A source module whose implementation or interface did not compile cleanly.
pub open spec fn module_failed_to_compile(m: Module) -> bool {
    match m.source_type {
        SourceType::SourceFile(sf) => compile_failed(sf.implementation.compile_state) || (
        sf.interface matches Some(i) && compile_failed(i.compile_state)),
        SourceType::MlMap(_) => false,
    }
}

pub fn failed_to_parse(module: &Module) -> (r: bool)
    ensures
        r == module_failed_to_parse(*module),
{
    match &module.source_type {
        SourceType::SourceFile(sf) => {
            let imp = sf.implementation.parse_state;
            if imp == ParseState::ParseError || imp == ParseState::Warning {
                return true;
            }
            match &sf.interface {
                Some(i) => i.parse_state == ParseState::ParseError || i.parse_state == ParseState::Warning,
                None => false,
            }
        },
        SourceType::MlMap(_) => false,
    }
}

pub fn failed_to_compile(module: &Module) -> (r: bool)
    ensures
        r == module_failed_to_compile(*module),
{
    match &module.source_type {
        SourceType::SourceFile(sf) => {
            let imp = sf.implementation.compile_state;
            if imp == CompileState::Error || imp == CompileState::Warning {
                return true;
            }
            match &sf.interface {
                Some(i) => i.compile_state == CompileState::Error || i.compile_state == CompileState::Warning,
                None => false,
            }
        },
        SourceType::MlMap(_) => false,
    }
}

/// A line of an AST that holds the path of its source file: past its leading
/// white space it starts with `/`.
pub open spec fn is_path_line(line: Seq<char>) -> bool {
    trim_start(line).len() > 0 && trim_start(line)[0] == '/'
}

/// Whether line `index` of an AST (counting from 0) holds the path of its
/// source file: a path line after the first line.
pub fn is_source_path_line(index: usize, line: &str) -> (r: bool)
    ensures
        r == (index >= 1 && is_path_line(line@)),
{
    index >= 1 && crate::text::trimmed_starts_with(line, '/')
}

/// The source file of an AST, from the AST's lines: after the first line
/// (which holds no text) come the modules it depends on, then the absolute
/// path of the file, the first path line after the first line. A line that
/// could not be read counts as an empty line.
pub fn get_res_path_from_ast(lines: &Vec<String>) -> (r: Option<String>)
    ensures
        match r {
            Some(l) => exists|i: int|
                1 <= i < lines@.len() && is_path_line(#[trigger] lines@[i]@) && l@ == lines@[i]@
                    && forall|j: int| 1 <= j < i ==> !is_path_line(#[trigger] lines@[j]@),
            None => forall|i: int| 1 <= i < lines@.len() ==> !is_path_line(#[trigger] lines@[i]@),
        },
{
    let mut i: usize = 1;
    while i < lines.len()
        invariant
            1 <= i,
            forall|j: int| 1 <= j < i && j < lines@.len() ==> !is_path_line(#[trigger] lines@[j]@),
        decreases lines@.len() - i,
    {
        if is_source_path_line(i, lines[i].as_str()) {
            return Some(lines[i].clone());
        }
        i = i + 1;
    }
    None
}

/// The time a source module last changed: the later of its implementation
/// and interface; none for a namespace map.
pub open spec fn module_last_modified(m: Module) -> Option<u128> {
    match m.source_type {
        SourceType::MlMap(_) => None,
        SourceType::SourceFile(sf) => match sf.interface {
            Some(i) => if sf.implementation.last_modified > i.last_modified {
                Some(sf.implementation.last_modified)
            } else {
                Some(i.last_modified)
            },
            None => Some(sf.implementation.last_modified),
        },
    }
}

pub fn last_modified(module: &Module) -> (r: Option<u128>)
    ensures
        r == module_last_modified(*module),
{
    match &module.source_type {
        SourceType::MlMap(_) => None,
        SourceType::SourceFile(sf) => match &sf.interface {
            Some(i) => if sf.implementation.last_modified > i.last_modified {
                Some(sf.implementation.last_modified)
            } else {
                Some(i.last_modified)
            },
            None => Some(sf.implementation.last_modified),
        },
    }
}

/// A source module once what the previous build left for it has been taken
/// into account (see `mark_unchanged`).
pub open spec fn unchanged_mark(
    m: Module,
    cmi_modified: Option<u128>,
    ast_modified: u128,
    ast_file_path: Seq<char>,
    interface_deleted: bool,
) -> Module {
    match m.source_type {
        SourceType::SourceFile(sf) => Module {
            compile_dirty: if cmi_modified matches Some(c) && module_last_modified(m) matches Some(l) && c > l
                && !interface_deleted {
                false
            } else {
                m.compile_dirty
            },
            source_type: SourceType::SourceFile(
                if is_iast(ast_file_path) {
                    SourceFile {
                        interface: match sf.interface {
                            Some(i) => Some(
                                Interface {
                                    parse_dirty: if ast_modified > i.last_modified {
                                        false
                                    } else {
                                        i.parse_dirty
                                    },
                                    ..i
                                },
                            ),
                            None => None,
                        },
                        ..sf
                    }
                } else {
                    SourceFile {
                        implementation: Implementation {
                            parse_dirty: if ast_modified > sf.implementation.last_modified && !interface_deleted {
                                false
                            } else {
                                sf.implementation.parse_dirty
                            },
                            ..sf.implementation
                        },
                        ..sf
                    }
                },
            ),
            ..m
        },
        SourceType::MlMap(_) => m,
    }
}

/// Takes what the previous build left for a source module into account: the
/// module need not be compiled again when its compiled interface (`cmi`, with
/// its time) is newer than its sources and its interface file was not deleted;
/// the file an AST was made from (`ast_file_path`, with its time) need not be
/// parsed again when the AST is newer than it (for an implementation, again
/// only when the interface file was not deleted). An interface AST needs an
/// interface file.
pub fn mark_unchanged(
    module: &mut Module,
    cmi_modified: Option<u128>,
    ast_modified: u128,
    ast_file_path: &str,
    interface_deleted: bool,
)
    requires
        old(module).source_type is SourceFile,
        ends_with(ast_file_path@, ".iast"@) ==> old(module).source_type->SourceFile_0.interface is Some,
    ensures
        *final(module) == unchanged_mark(*old(module), cmi_modified, ast_modified, ast_file_path@, interface_deleted),
{
    if let Some(cmi) = cmi_modified {
        if let Some(lm) = last_modified(module) {
            if cmi > lm && !interface_deleted {
                module.compile_dirty = false;
            }
        }
    }
    let is_interface = crate::helpers::is_interface_ast_file(ast_file_path);
    match &mut module.source_type {
        SourceType::MlMap(_) => {},
        SourceType::SourceFile(source_file) => {
            if is_interface {
                match &mut source_file.interface {
                    Some(interface) => {
                        if ast_modified > interface.last_modified {
                            interface.parse_dirty = false;
                        }
                    },
                    None => {},
                }
            } else {
                let implementation = &mut source_file.implementation;
                if ast_modified > implementation.last_modified && !interface_deleted {
                    implementation.parse_dirty = false;
                }
            }
        },
    }
}

/// The names that a set of module names holds.
pub uninterp spec fn name_set(s: ahash::AHashSet<String>) -> Set<Seq<char>>;

/// `AHashSet::new`: an empty set.
#[verifier::external_body]
pub(crate) fn new_name_set() -> (r: ahash::AHashSet<String>)
    ensures
        name_set(r) == Set::<Seq<char>>::empty(),
{
    ahash::AHashSet::new()
}

/// `HashSet::insert` through `AHashSet`: the name is in the set afterwards and
/// nothing else changed.
#[verifier::external_body]
pub(crate) fn insert_name(s: &mut ahash::AHashSet<String>, x: String)
    ensures
        name_set(*final(s)) == name_set(*old(s)).insert(x@),
{
    s.insert(x);
}

/// `HashSet::contains` through `AHashSet`.
#[verifier::external_body]
fn contains_name(s: &ahash::AHashSet<String>, x: &String) -> (r: bool)
    ensures
        r == name_set(*s).contains(x@),
{
    s.contains(x)
}

/// What a deleted module leaves to rebuild: its namespace when its name
/// carries one (the whole namespace is rebuilt), else its own name.
pub open spec fn deleted_name(module_name: Seq<char>) -> Seq<char> {
    match namespace_of_module_name(module_name) {
        Some(ns) => ns,
        None => module_name,
    }
}

/// The names of the modules that have an AST from an earlier build but are
/// no longer part of it, each as `deleted_name` gives it.
pub fn deleted_module_names(ast_module_names: &Vec<String>, all_module_names: &ahash::AHashSet<String>) -> (r: ahash::AHashSet<String>)
    ensures
        forall|n: Seq<char>| #[trigger] name_set(r).contains(n) <==> exists|i: int|
            0 <= i < ast_module_names@.len() && !name_set(*all_module_names).contains(
                #[trigger] ast_module_names@[i]@,
            ) && n == deleted_name(ast_module_names@[i]@),
{
    let mut out = new_name_set();
    let mut i: usize = 0;
    while i < ast_module_names.len()
        invariant
            i <= ast_module_names@.len(),
            forall|n: Seq<char>| #[trigger] name_set(out).contains(n) <==> exists|k: int|
                0 <= k < i && !name_set(*all_module_names).contains(#[trigger] ast_module_names@[k]@)
                    && n == deleted_name(ast_module_names@[k]@),
        decreases ast_module_names@.len() - i,
    {
        let name = &ast_module_names[i];
        if !contains_name(all_module_names, name) {
            let shown = match crate::helpers::get_namespace_from_module_name(name.as_str()) {
                Some(namespace) => namespace,
                None => name.clone(),
            };
            let ghost before = name_set(out);
            insert_name(&mut out, shown);
            assert forall|n: Seq<char>| #[trigger] name_set(out).contains(n) <==> exists|k: int|
                0 <= k < i + 1 && !name_set(*all_module_names).contains(#[trigger] ast_module_names@[k]@)
                    && n == deleted_name(ast_module_names@[k]@) by {
                if n == deleted_name(ast_module_names@[i as int]@) {
                    assert(!name_set(*all_module_names).contains(ast_module_names@[i as int]@));
                }
            }
        } else {
            assert forall|n: Seq<char>| #[trigger] name_set(out).contains(n) <==> exists|k: int|
                0 <= k < i + 1 && !name_set(*all_module_names).contains(#[trigger] ast_module_names@[k]@)
                    && n == deleted_name(ast_module_names@[k]@) by {
                if exists|k: int|
                    0 <= k < i + 1 && !name_set(*all_module_names).contains(#[trigger] ast_module_names@[k]@)
                        && n == deleted_name(ast_module_names@[k]@) {
                    let k = choose|k: int|
                        0 <= k < i + 1 && !name_set(*all_module_names).contains(#[trigger] ast_module_names@[k]@)
                            && n == deleted_name(ast_module_names@[k]@);
                    assert(k != i);
                }
            }
        }
        i = i + 1;
    }
    out
}

/// The kinds of compiler output that a previous build leaves in a build
/// folder and that are read back.
#[derive(Debug, Clone, Copy, PartialEq, Eq, Structural)]
pub enum AssetKind {
    /// An AST (`.ast`, or `.iast` for an interface).
    Ast,
    /// A compiled interface (`.cmi`).
    Cmi,
    /// A typed tree (`.cmt`).
    Cmt,
}

pub open spec fn kind_of_asset(path: Seq<char>) -> Option<AssetKind> {
    match crate::paths::extension(path) {
        Some(e) => if e == "iast"@ || e == "ast"@ {
            Some(AssetKind::Ast)
        } else if e == "cmi"@ {
            Some(AssetKind::Cmi)
        } else if e == "cmt"@ {
            Some(AssetKind::Cmt)
        } else {
            None
        },
        None => None,
    }
}

/// What kind of compiler output a file of a build folder is, by its
/// extension; `None` for other files.
pub fn asset_kind(path: &str) -> (r: Option<AssetKind>)
    ensures
        r == kind_of_asset(path@),
{
    match crate::paths::extension_of_path(path) {
        Some(e) => if crate::text::str_equals(e.as_str(), "iast") || crate::text::str_equals(e.as_str(), "ast") {
            Some(AssetKind::Ast)
        } else if crate::text::str_equals(e.as_str(), "cmi") {
            Some(AssetKind::Cmi)
        } else if crate::text::str_equals(e.as_str(), "cmt") {
            Some(AssetKind::Cmt)
        } else {
            None
        },
        None => None,
    }
}


/// An AST that an earlier build left in a build folder (an `.ast`, or an
/// `.iast` for an interface): the module it belongs to, the AST's path, when
/// it was written (as for `Implementation`), and the source file it was made
/// from, as the AST names it.
pub struct AstRecord {
    pub module_name: String,
    pub ast_path: String,
    pub modified: u128,
    pub source_path: String,
}

/// What the previous build left that is out of date: the ASTs (by index)
/// whose source file is gone, one for each such file, with their count; the
/// number of source files the ASTs name; and the names to rebuild because
/// their module was deleted.
pub struct CleanupPlan {
    pub stale: Vec<usize>,
    pub stale_count: usize,
    pub total: usize,
    pub deleted: ahash::AHashSet<String>,
}

pub open spec fn is_iast(path: Seq<char>) -> bool {
    ends_with(path, ".iast"@)
}

/// Record `i` is the last one for its source file: of several ASTs that name
/// the same file, the last one stands.
pub open spec fn last_for_source(asts: Seq<AstRecord>, i: int) -> bool {
    &&& 0 <= i < asts.len()
    &&& forall|j: int| i < j < asts.len() ==> #[trigger] asts[j].source_path@ != asts[i].source_path@
}

/// Record `i` stands and its source file is still part of the build.
pub open spec fn kept(asts: Seq<AstRecord>, current: Seq<Seq<char>>, i: int) -> bool {
    last_for_source(asts, i) && current.contains(asts[i].source_path@)
}

/// Record `i` stands and its source file is gone.
pub open spec fn gone(asts: Seq<AstRecord>, current: Seq<Seq<char>>, i: int) -> bool {
    last_for_source(asts, i) && !current.contains(asts[i].source_path@)
}

/// The source files that the ASTs name.
pub open spec fn ast_sources(asts: Seq<AstRecord>) -> Set<Seq<char>> {
    Set::new(|s: Seq<char>| exists|i: int| 0 <= i < asts.len() && #[trigger] asts[i].source_path@ == s)
}

/// The source files that the ASTs name and that are gone.
pub open spec fn gone_sources(asts: Seq<AstRecord>, current: Seq<Seq<char>>) -> Set<Seq<char>> {
    ast_sources(asts).filter(|s: Seq<char>| !current.contains(s))
}

/// The interface file of module `name` is gone: a standing interface AST of
/// that module names a source file that is gone.
pub open spec fn interface_gone(asts: Seq<AstRecord>, current: Seq<Seq<char>>, name: Seq<char>) -> bool {
    exists|i: int| #[trigger] gone(asts, current, i) && asts[i].module_name@ == name && is_iast(asts[i].ast_path@)
}

/// The time of the compiled interface of module `name`: the last entry for
/// that name.
pub open spec fn cmi_time(cmis: Seq<(String, u128)>, name: Seq<char>) -> Option<u128>
    decreases cmis.len(),
{
    if cmis.len() == 0 {
        None
    } else if cmis.last().0@ == name {
        Some(cmis.last().1)
    } else {
        cmi_time(cmis.drop_last(), name)
    }
}

pub open spec fn counts_for(asts: Seq<AstRecord>, current: Seq<Seq<char>>, name: Seq<char>, j: int) -> bool {
    kept(asts, current, j) && asts[j].module_name@ == name
}

/// Some of the first `upto` records is kept and belongs to module `name`.
pub open spec fn touched(asts: Seq<AstRecord>, current: Seq<Seq<char>>, name: Seq<char>, upto: int) -> bool {
    exists|j: int| 0 <= j < upto && #[trigger] counts_for(asts, current, name, j)
}

/// Some of the first `upto` records is a kept AST of module `name`, of an
/// interface or not as `iface` says, written after time `t`.
pub open spec fn newer_ast(
    asts: Seq<AstRecord>,
    current: Seq<Seq<char>>,
    name: Seq<char>,
    upto: int,
    iface: bool,
    t: u128,
) -> bool {
    exists|j: int|
        0 <= j < upto && #[trigger] counts_for(asts, current, name, j) && is_iast(asts[j].ast_path@) == iface
            && asts[j].modified > t
}

/// Module `m` (named `name`) once the first `upto` records have been taken
/// into account as `mark_unchanged` does: compiled output newer than its
/// sources clears `compile_dirty`, and an AST newer than its file clears that
/// file's `parse_dirty` (neither where the interface file is gone, but for the
/// interface's own AST). A module without kept records stays as it is.
pub open spec fn kept_module(
    m: Module,
    name: Seq<char>,
    asts: Seq<AstRecord>,
    current: Seq<Seq<char>>,
    cmis: Seq<(String, u128)>,
    upto: int,
) -> Module {
    if !touched(asts, current, name, upto) {
        m
    } else {
        match m.source_type {
            SourceType::SourceFile(sf) => {
                let deleted = interface_gone(asts, current, name);
                Module {
                    compile_dirty: if cmi_time(cmis, name) matches Some(c) && module_last_modified(m) matches Some(l)
                        && c > l && !deleted {
                        false
                    } else {
                        m.compile_dirty
                    },
                    source_type: SourceType::SourceFile(
                        SourceFile {
                            implementation: Implementation {
                                parse_dirty: if newer_ast(
                                    asts,
                                    current,
                                    name,
                                    upto,
                                    false,
                                    sf.implementation.last_modified,
                                ) && !deleted {
                                    false
                                } else {
                                    sf.implementation.parse_dirty
                                },
                                ..sf.implementation
                            },
                            interface: match sf.interface {
                                Some(i) => Some(
                                    Interface {
                                        parse_dirty: if newer_ast(asts, current, name, upto, true, i.last_modified) {
                                            false
                                        } else {
                                            i.parse_dirty
                                        },
                                        ..i
                                    },
                                ),
                                None => None,
                            },
                            ..sf
                        },
                    ),
                    ..m
                }
            },
            SourceType::MlMap(_) => m,
        }
    }
}


/// A record that does not count for module `name` leaves it as it is.
proof fn lemma_kept_same(
    m0: Module,
    name: Seq<char>,
    asts: Seq<AstRecord>,
    current: Seq<Seq<char>>,
    cmis: Seq<(String, u128)>,
    i: int,
)
    requires
        0 <= i < asts.len(),
        !counts_for(asts, current, name, i),
    ensures
        kept_module(m0, name, asts, current, cmis, i + 1) == kept_module(m0, name, asts, current, cmis, i),
{
    assert(touched(asts, current, name, i + 1) == touched(asts, current, name, i)) by {
        if touched(asts, current, name, i + 1) {
            let j = choose|j: int| 0 <= j < i + 1 && #[trigger] counts_for(asts, current, name, j);
            assert(j != i);
        }
    }
    assert forall|iface: bool, t: u128| newer_ast(asts, current, name, i + 1, iface, t) == newer_ast(
        asts,
        current,
        name,
        i,
        iface,
        t,
    ) by {
        if newer_ast(asts, current, name, i + 1, iface, t) {
            let j = choose|j: int|
                0 <= j < i + 1 && #[trigger] counts_for(asts, current, name, j) && is_iast(asts[j].ast_path@) == iface
                    && asts[j].modified > t;
            assert(j != i);
        }
    }
}

/// A record of module `name` does to it what `mark_unchanged` does.
proof fn lemma_kept_step(
    m0: Module,
    name: Seq<char>,
    asts: Seq<AstRecord>,
    current: Seq<Seq<char>>,
    cmis: Seq<(String, u128)>,
    i: int,
)
    requires
        0 <= i < asts.len(),
        counts_for(asts, current, name, i),
        m0.source_type is SourceFile,
    ensures
        kept_module(m0, name, asts, current, cmis, i).source_type is SourceFile,
        kept_module(m0, name, asts, current, cmis, i).source_type->SourceFile_0.interface is Some
            == m0.source_type->SourceFile_0.interface is Some,
        unchanged_mark(
            kept_module(m0, name, asts, current, cmis, i),
            cmi_time(cmis, name),
            asts[i].modified,
            asts[i].ast_path@,
            interface_gone(asts, current, name),
        ) == kept_module(m0, name, asts, current, cmis, i + 1),
{
    assert(touched(asts, current, name, i + 1));
    assert forall|iface: bool, t: u128| newer_ast(asts, current, name, i + 1, iface, t) == (newer_ast(
        asts,
        current,
        name,
        i,
        iface,
        t,
    ) || (is_iast(asts[i].ast_path@) == iface && asts[i].modified > t)) by {
        if newer_ast(asts, current, name, i + 1, iface, t) {
            let j = choose|j: int|
                0 <= j < i + 1 && #[trigger] counts_for(asts, current, name, j) && is_iast(asts[j].ast_path@) == iface
                    && asts[j].modified > t;
            if j < i {
                assert(newer_ast(asts, current, name, i, iface, t));
            }
        }
        if is_iast(asts[i].ast_path@) == iface && asts[i].modified > t {
            assert(counts_for(asts, current, name, i));
        }
    }
    let now = kept_module(m0, name, asts, current, cmis, i);
    assert(module_last_modified(now) == module_last_modified(m0));
}

/// Some record from `i` on names the same source file as record `i` and is
/// the last to do so.
proof fn lemma_last_record(asts: Seq<AstRecord>, i: int)
    requires
        0 <= i < asts.len(),
    ensures
        exists|j: int| i <= j < asts.len() && #[trigger] last_for_source(asts, j) && asts[j].source_path@
            == asts[i].source_path@,
    decreases asts.len() - i,
{
    if last_for_source(asts, i) {
        assert(last_for_source(asts, i) && asts[i].source_path@ == asts[i].source_path@);
    } else {
        let j = choose|j: int| i < j < asts.len() && #[trigger] asts[j].source_path@ != asts[i].source_path@ == false;
        lemma_last_record(asts, j);
        let k = choose|k: int| j <= k < asts.len() && #[trigger] last_for_source(asts, k) && asts[k].source_path@
            == asts[j].source_path@;
        assert(i <= k < asts.len() && last_for_source(asts, k) && asts[k].source_path@ == asts[i].source_path@);
    }
}

fn is_last_for_source(asts: &Vec<AstRecord>, i: usize) -> (r: bool)
    requires
        i < asts@.len(),
    ensures
        r == last_for_source(asts@, i as int),
{
    let n = asts.len();
    let mut j: usize = i + 1;
    while j < n
        invariant
            n == asts@.len(),
            i < j <= asts@.len(),
            forall|t: int| i < t < j ==> #[trigger] asts@[t].source_path@ != asts@[i as int].source_path@,
        decreases asts@.len() - j,
    {
        if crate::text::str_equals(asts[j].source_path.as_str(), asts[i].source_path.as_str()) {
            return false;
        }
        j = j + 1;
    }
    true
}

fn cmi_lookup(cmis: &Vec<(String, u128)>, name: &String) -> (r: Option<u128>)
    ensures
        r == cmi_time(cmis@, name@),
{
    let mut k: usize = cmis.len();
    assert(cmis@.take(k as int) =~= cmis@);
    while k > 0
        invariant
            k <= cmis@.len(),
            cmi_time(cmis@, name@) == cmi_time(cmis@.take(k as int), name@),
        decreases k,
    {
        let ghost t = cmis@.take(k as int);
        assert(t.drop_last() =~= cmis@.take(k - 1));
        assert(t.last() == cmis@[k - 1]);
        if crate::text::str_equals(cmis[k - 1].0.as_str(), name.as_str()) {
            return Some(cmis[k - 1].1);
        }
        k = k - 1;
    }
    None
}


/// The names of the modules, as a set.
fn name_set_of_modules(modules: &ahash::AHashMap<String, Module>) -> (r: ahash::AHashSet<String>)
    ensures
        name_set(r) == module_map(*modules).dom(),
{
    let names = module_names(modules);
    let ghost nv = names.deep_view();
    let mut out = new_name_set();
    let mut k: usize = 0;
    while k < names.len()
        invariant
            nv == names.deep_view(),
            k <= names@.len(),
            forall|s: Seq<char>| #[trigger] name_set(out).contains(s) <==> exists|t: int| 0 <= t < k && nv[t] == s,
        decreases names@.len() - k,
    {
        let ghost before = name_set(out);
        insert_name(&mut out, names[k].clone());
        proof {
            assert(nv[k as int] == names@[k as int]@);
            assert(name_set(out) == before.insert(nv[k as int]));
            assert forall|s: Seq<char>| #[trigger] name_set(out).contains(s) <==> exists|t: int| 0 <= t < k + 1 && nv[t] == s by {
                if s == nv[k as int] {
                    assert(0 <= k < k + 1 && nv[k as int] == s);
                } else if name_set(out).contains(s) {
                    assert(before.contains(s));
                    let t = choose|t: int| 0 <= t < k && nv[t] == s;
                    assert(0 <= t < k + 1 && nv[t] == s);
                }
                if exists|t: int| 0 <= t < k + 1 && nv[t] == s {
                    let t = choose|t: int| 0 <= t < k + 1 && nv[t] == s;
                    if t < k {
                        assert(exists|t: int| 0 <= t < k && nv[t] == s);
                    }
                }
            }
        }
        k = k + 1;
    }
    proof {
        assert forall|s: Seq<char>| name_set(out).contains(s) <==> module_map(*modules).dom().contains(s) by {
            if module_map(*modules).dom().contains(s) {
                assert(nv.to_set().contains(s));
                let t = choose|t: int| 0 <= t < nv.len() && nv[t] == s;
            }
            if name_set(out).contains(s) {
                let t = choose|t: int| 0 <= t < k && nv[t] == s;
                assert(nv.contains(s));
            }
        }
        assert(name_set(out) =~= module_map(*modules).dom());
    }
    out
}


pub open spec fn live_source_before(a: Seq<AstRecord>, i: int, s: Seq<char>) -> bool {
    exists|j: int| 0 <= j < i && #[trigger] last_for_source(a, j) && a[j].source_path@ == s
}

pub open spec fn gone_source_before(a: Seq<AstRecord>, cur: Seq<Seq<char>>, i: int, s: Seq<char>) -> bool {
    exists|j: int| 0 <= j < i && #[trigger] gone(a, cur, j) && a[j].source_path@ == s
}

pub open spec fn gone_interface_before(a: Seq<AstRecord>, cur: Seq<Seq<char>>, i: int, name: Seq<char>) -> bool {
    exists|j: int| 0 <= j < i && #[trigger] gone(a, cur, j) && a[j].module_name@ == name && is_iast(a[j].ast_path@)
}

pub open spec fn implementation_ast_before(a: Seq<AstRecord>, i: int, name: Seq<char>) -> bool {
    exists|j: int| 0 <= j < i && #[trigger] last_for_source(a, j) && !is_iast(a[j].ast_path@) && a[j].module_name@ == name
}

/// Works out what the previous build left that is out of date, and marks
/// the modules whose sources have not changed since (see `kept_module`).
/// `current_sources` are the paths of the implementation and interface files
/// of the build's modules, written as the ASTs write them; `cmi_times` the
/// compiled interfaces found, by module name, with their times. A kept AST
/// (one whose source file is current) must belong to a module of a source
/// file, and a kept interface AST to a module with an interface.
pub fn plan_cleanup(
    modules: &mut ahash::AHashMap<String, Module>,
    current_sources: &Vec<String>,
    asts: &Vec<AstRecord>,
    cmi_times: &Vec<(String, u128)>,
) -> (r: CleanupPlan)
    requires
        forall|i: int| #[trigger] kept(asts@, current_sources.deep_view(), i) ==> {
            &&& module_map(*old(modules)).contains_key(asts@[i].module_name@)
            &&& module_map(*old(modules))[asts@[i].module_name@].source_type is SourceFile
            &&& is_iast(asts@[i].ast_path@) ==> module_map(*old(modules))[asts@[i].module_name@].source_type->SourceFile_0.interface is Some
        },
    ensures
        r.total == ast_sources(asts@).len(),
        r.stale_count == gone_sources(asts@, current_sources.deep_view()).len(),
        r.stale@.no_duplicates(),
        forall|k: int| 0 <= k < r.stale@.len() ==> #[trigger] r.stale@[k] < asts@.len(),
        forall|i: int| 0 <= i < asts@.len() ==> (r.stale@.contains(i as usize) <==> #[trigger] gone(asts@, current_sources.deep_view(), i)),
        module_map(*final(modules)).dom() == module_map(*old(modules)).dom(),
        forall|k: Seq<char>| #[trigger] module_map(*old(modules)).contains_key(k) ==> module_map(*final(modules))[k]
            == kept_module(module_map(*old(modules))[k], k, asts@, current_sources.deep_view(), cmi_times@, asts@.len() as int),
        forall|n: Seq<char>| #[trigger] name_set(r.deleted).contains(n) <==> exists|i: int|
            #[trigger] last_for_source(asts@, i) && !is_iast(asts@[i].ast_path@) && !module_map(*old(modules)).contains_key(
                asts@[i].module_name@,
            ) && n == deleted_name(asts@[i].module_name@),
{
    let ghost cur = current_sources.deep_view();
    let ghost a = asts@;
    let ghost map0 = module_map(*modules);
    let n = asts.len();
    let mut live: Vec<bool> = Vec::new();
    let mut all_src: Vec<String> = Vec::new();
    let mut stale: Vec<usize> = Vec::new();
    let mut gone_src: Vec<String> = Vec::new();
    let mut iface_names: Vec<String> = Vec::new();
    let mut impl_names: Vec<String> = Vec::new();
    let mut i: usize = 0;
    while i < n
        invariant
            n == a.len(),
            a == asts@,
            cur == current_sources.deep_view(),
            i <= n,
            live@.len() == i,
            forall|j: int| 0 <= j < i ==> #[trigger] live@[j] == last_for_source(a, j),
            all_src.deep_view().no_duplicates(),
            forall|s: Seq<char>| #[trigger] all_src.deep_view().contains(s) <==> live_source_before(a, i as int, s),
            stale@.len() == gone_src@.len(),
            forall|k: int| 0 <= k < stale@.len() ==> #[trigger] stale@[k] < i,
            stale@.no_duplicates(),
            forall|j: int| 0 <= j < n ==> (stale@.contains(j as usize) <==> (j < i && #[trigger] gone(a, cur, j))),
            gone_src.deep_view().no_duplicates(),
            forall|s: Seq<char>| #[trigger] gone_src.deep_view().contains(s) <==> gone_source_before(a, cur, i as int, s),
            forall|x: Seq<char>| #[trigger] iface_names.deep_view().contains(x) <==> gone_interface_before(a, cur, i as int, x),
            forall|x: Seq<char>| #[trigger] impl_names.deep_view().contains(x) <==> implementation_ast_before(a, i as int, x),
        decreases n - i,
    {
        let is_last = is_last_for_source(asts, i);
        live.push(is_last);
        let ghost src = a[i as int].source_path@;
        let ghost name = a[i as int].module_name@;
        let ghost iast = is_iast(a[i as int].ast_path@);
        let ghost all0 = all_src.deep_view();
        let ghost gone0 = gone_src.deep_view();
        let ghost stale0 = stale@;
        let ghost if0 = iface_names.deep_view();
        let ghost im0 = impl_names.deep_view();
        let mut is_gone = false;
        if is_last {
            proof {
                if all0.contains(src) {
                    let j = choose|j: int| 0 <= j < i && #[trigger] last_for_source(a, j) && a[j].source_path@ == src;
                    assert(a[i as int].source_path@ != a[j].source_path@);
                }
            }
            all_src.push(asts[i].source_path.clone());
            assert(all_src.deep_view() =~= all0.push(src));
            let iface = crate::helpers::is_interface_ast_file(asts[i].ast_path.as_str());
            if !contains_string(current_sources, &asts[i].source_path) {
                is_gone = true;
                proof {
                    if gone0.contains(src) {
                        let j = choose|j: int| 0 <= j < i && #[trigger] gone(a, cur, j) && a[j].source_path@ == src;
                        assert(a[i as int].source_path@ != a[j].source_path@);
                    }
                    if stale0.contains(i) {
                        let k = choose|k: int| 0 <= k < stale0.len() && stale0[k] == i;
                        assert(stale0[k] < i);
                    }
                }
                stale.push(i);
                gone_src.push(asts[i].source_path.clone());
                assert(gone_src.deep_view() =~= gone0.push(src));
                if iface {
                    iface_names.push(asts[i].module_name.clone());
                    assert(iface_names.deep_view() =~= if0.push(name));
                }
            }
            if !iface {
                impl_names.push(asts[i].module_name.clone());
                assert(impl_names.deep_view() =~= im0.push(name));
            }
        }
        proof {
            assert(is_gone == gone(a, cur, i as int));
            assert forall|a1: int, b1: int| 0 <= a1 < b1 < all_src.deep_view().len() implies all_src.deep_view()[a1]
                != all_src.deep_view()[b1] by {
                if is_last && b1 == all0.len() {
                    assert(all0.contains(all0[a1]));
                } else {
                    assert(all0[a1] != all0[b1]);
                }
            }
            assert forall|a1: int, b1: int| 0 <= a1 < b1 < gone_src.deep_view().len() implies gone_src.deep_view()[a1]
                != gone_src.deep_view()[b1] by {
                if is_gone && b1 == gone0.len() {
                    assert(gone0.contains(gone0[a1]));
                } else {
                    assert(gone0[a1] != gone0[b1]);
                }
            }
            assert forall|s: Seq<char>| #[trigger] all_src.deep_view().contains(s) <==> live_source_before(a, i + 1, s) by {
                if live_source_before(a, i + 1, s) {
                    let j = choose|j: int| 0 <= j < i + 1 && #[trigger] last_for_source(a, j) && a[j].source_path@ == s;
                    if j < i {
                        assert(live_source_before(a, i as int, s));
                        assert(all0.contains(s));
                        let t = choose|t: int| 0 <= t < all0.len() && all0[t] == s;
                        assert(all_src.deep_view()[t] == s);
                    } else {
                        assert(all_src.deep_view()[all0.len() as int] == s);
                    }
                }
                if all_src.deep_view().contains(s) {
                    let t = choose|t: int| 0 <= t < all_src.deep_view().len() && all_src.deep_view()[t] == s;
                    if t < all0.len() {
                        assert(all0.contains(s));
                        let j = choose|j: int| 0 <= j < i && #[trigger] last_for_source(a, j) && a[j].source_path@ == s;
                        assert(0 <= j < i + 1);
                    } else {
                        assert(last_for_source(a, i as int));
                    }
                }
            }
            assert forall|s: Seq<char>| #[trigger] gone_src.deep_view().contains(s) <==> gone_source_before(a, cur, i + 1, s) by {
                if gone_source_before(a, cur, i + 1, s) {
                    let j = choose|j: int| 0 <= j < i + 1 && #[trigger] gone(a, cur, j) && a[j].source_path@ == s;
                    if j < i {
                        assert(gone_source_before(a, cur, i as int, s));
                        assert(gone0.contains(s));
                        let t = choose|t: int| 0 <= t < gone0.len() && gone0[t] == s;
                        assert(gone_src.deep_view()[t] == s);
                    } else {
                        assert(gone_src.deep_view()[gone0.len() as int] == s);
                    }
                }
                if gone_src.deep_view().contains(s) {
                    let t = choose|t: int| 0 <= t < gone_src.deep_view().len() && gone_src.deep_view()[t] == s;
                    if t < gone0.len() {
                        assert(gone0.contains(s));
                        let j = choose|j: int| 0 <= j < i && #[trigger] gone(a, cur, j) && a[j].source_path@ == s;
                        assert(0 <= j < i + 1);
                    } else {
                        assert(gone(a, cur, i as int));
                    }
                }
            }
            assert forall|x: Seq<char>| #[trigger] iface_names.deep_view().contains(x) <==> gone_interface_before(a, cur, i + 1, x) by {
                let pushed = is_gone && iast;
                if gone_interface_before(a, cur, i + 1, x) {
                    let j = choose|j: int| 0 <= j < i + 1 && #[trigger] gone(a, cur, j) && a[j].module_name@ == x && is_iast(a[j].ast_path@);
                    if j < i {
                        assert(gone_interface_before(a, cur, i as int, x));
                        assert(if0.contains(x));
                        let t = choose|t: int| 0 <= t < if0.len() && if0[t] == x;
                        assert(iface_names.deep_view()[t] == x);
                    } else {
                        assert(iface_names.deep_view()[if0.len() as int] == x);
                    }
                }
                if iface_names.deep_view().contains(x) {
                    let t = choose|t: int| 0 <= t < iface_names.deep_view().len() && iface_names.deep_view()[t] == x;
                    if t < if0.len() {
                        assert(if0.contains(x));
                        let j = choose|j: int| 0 <= j < i && #[trigger] gone(a, cur, j) && a[j].module_name@ == x && is_iast(a[j].ast_path@);
                        assert(0 <= j < i + 1);
                    } else {
                        assert(gone(a, cur, i as int));
                    }
                }
            }
            assert forall|x: Seq<char>| #[trigger] impl_names.deep_view().contains(x) <==> implementation_ast_before(a, i + 1, x) by {
                if implementation_ast_before(a, i + 1, x) {
                    let j = choose|j: int| 0 <= j < i + 1 && #[trigger] last_for_source(a, j) && !is_iast(a[j].ast_path@) && a[j].module_name@ == x;
                    if j < i {
                        assert(implementation_ast_before(a, i as int, x));
                        assert(im0.contains(x));
                        let t = choose|t: int| 0 <= t < im0.len() && im0[t] == x;
                        assert(impl_names.deep_view()[t] == x);
                    } else {
                        assert(impl_names.deep_view()[im0.len() as int] == x);
                    }
                }
                if impl_names.deep_view().contains(x) {
                    let t = choose|t: int| 0 <= t < impl_names.deep_view().len() && impl_names.deep_view()[t] == x;
                    if t < im0.len() {
                        assert(im0.contains(x));
                        let j = choose|j: int| 0 <= j < i && #[trigger] last_for_source(a, j) && !is_iast(a[j].ast_path@) && a[j].module_name@ == x;
                        assert(0 <= j < i + 1);
                    } else {
                        assert(last_for_source(a, i as int));
                    }
                }
            }
            assert forall|j: int| 0 <= j < n implies (stale@.contains(j as usize) <==> (j < i + 1 && #[trigger] gone(a, cur, j))) by {
                if stale@.contains(j as usize) {
                    let k = choose|k: int| 0 <= k < stale@.len() && stale@[k] == j as usize;
                    if k < stale0.len() {
                        assert(stale0.contains(j as usize));
                    }
                }
                if j < i && gone(a, cur, j) {
                    assert(stale0.contains(j as usize));
                    let k = choose|k: int| 0 <= k < stale0.len() && stale0[k] == j as usize;
                    assert(stale@[k] == j as usize);
                }
                if j == i && gone(a, cur, j) {
                    assert(stale@[stale0.len() as int] == j as usize);
                }
            }
        }
        i = i + 1;
    }
    proof {
        assert forall|s: Seq<char>| all_src.deep_view().to_set().contains(s) <==> ast_sources(a).contains(s) by {
            if ast_sources(a).contains(s) {
                let j = choose|j: int| 0 <= j < a.len() && #[trigger] a[j].source_path@ == s;
                lemma_last_record(a, j);
                let k = choose|k: int| j <= k < a.len() && #[trigger] last_for_source(a, k) && a[k].source_path@ == a[j].source_path@;
                assert(live_source_before(a, n as int, s));
            }
            if all_src.deep_view().to_set().contains(s) {
                assert(all_src.deep_view().contains(s));
                let j = choose|j: int| 0 <= j < n && #[trigger] last_for_source(a, j) && a[j].source_path@ == s;
                assert(0 <= j < a.len() && a[j].source_path@ == s);
            }
        }
        assert(all_src.deep_view().to_set() =~= ast_sources(a));
        all_src.deep_view().unique_seq_to_set();
        assert forall|s: Seq<char>| gone_src.deep_view().to_set().contains(s) <==> gone_sources(a, cur).contains(s) by {
            if gone_sources(a, cur).contains(s) {
                let j = choose|j: int| 0 <= j < a.len() && #[trigger] a[j].source_path@ == s;
                lemma_last_record(a, j);
                let k = choose|k: int| j <= k < a.len() && #[trigger] last_for_source(a, k) && a[k].source_path@ == a[j].source_path@;
                assert(gone(a, cur, k));
                assert(gone_source_before(a, cur, n as int, s));
            }
            if gone_src.deep_view().to_set().contains(s) {
                assert(gone_src.deep_view().contains(s));
                let j = choose|j: int| 0 <= j < n && #[trigger] gone(a, cur, j) && a[j].source_path@ == s;
                assert(0 <= j < a.len() && a[j].source_path@ == s);
                assert(ast_sources(a).contains(s));
            }
        }
        assert(gone_src.deep_view().to_set() =~= gone_sources(a, cur));
        gone_src.deep_view().unique_seq_to_set();
        assert forall|x: Seq<char>| #[trigger] iface_names.deep_view().contains(x) <==> interface_gone(a, cur, x) by {
            if interface_gone(a, cur, x) {
                let j = choose|j: int| #[trigger] gone(a, cur, j) && a[j].module_name@ == x && is_iast(a[j].ast_path@);
                assert(gone_interface_before(a, cur, n as int, x));
            }
        }
    }
    let total = all_src.len();
    let stale_count = stale.len();

    let mut i: usize = 0;
    while i < n
        invariant
            n == a.len(),
            a == asts@,
            cur == current_sources.deep_view(),
            i <= n,
            live@.len() == n,
            forall|j: int| 0 <= j < n ==> #[trigger] live@[j] == last_for_source(a, j),
            forall|x: Seq<char>| #[trigger] iface_names.deep_view().contains(x) <==> interface_gone(a, cur, x),
            forall|j: int| #[trigger] kept(a, cur, j) ==> {
                &&& map0.contains_key(a[j].module_name@)
                &&& map0[a[j].module_name@].source_type is SourceFile
                &&& is_iast(a[j].ast_path@) ==> map0[a[j].module_name@].source_type->SourceFile_0.interface is Some
            },
            module_map(*modules).dom() == map0.dom(),
            forall|k: Seq<char>| #[trigger] map0.contains_key(k) ==> module_map(*modules)[k] == kept_module(
                map0[k],
                k,
                a,
                cur,
                cmi_times@,
                i as int,
            ),
        decreases n - i,
    {
        let ghost map_now = module_map(*modules);
        if live[i] && contains_string(current_sources, &asts[i].source_path) {
            let ghost name = a[i as int].module_name@;
            assert(kept(a, cur, i as int));
            assert(counts_for(a, cur, name, i as int));
            proof {
                lemma_kept_step(map0[name], name, a, cur, cmi_times@, i as int);
            }
            let key = asts[i].module_name.clone();
            match take_module(modules, &key) {
                Some(mut m) => {
                    let cmi = cmi_lookup(cmi_times, &key);
                    let deleted = contains_string(&iface_names, &key);
                    mark_unchanged(&mut m, cmi, asts[i].modified, asts[i].ast_path.as_str(), deleted);
                    put_module(modules, key, m);
                    proof {
                        assert forall|k: Seq<char>| #[trigger] map0.contains_key(k) implies module_map(*modules)[k]
                            == kept_module(map0[k], k, a, cur, cmi_times@, i + 1) by {
                            if k != name {
                                lemma_kept_same(map0[k], k, a, cur, cmi_times@, i as int);
                            }
                        }
                        assert(module_map(*modules).dom() =~= map0.dom());
                    }
                },
                None => {
                    assert(false);
                },
            }
        } else {
            proof {
                assert(!kept(a, cur, i as int));
                assert forall|k: Seq<char>| #[trigger] map0.contains_key(k) implies module_map(*modules)[k]
                    == kept_module(map0[k], k, a, cur, cmi_times@, i + 1) by {
                    lemma_kept_same(map0[k], k, a, cur, cmi_times@, i as int);
                }
            }
        }
        i = i + 1;
    }
    let all_names = name_set_of_modules(modules);
    let deleted = deleted_module_names(&impl_names, &all_names);
    proof {
        let im = impl_names.deep_view();
        assert forall|x: Seq<char>| #[trigger] name_set(deleted).contains(x) <==> exists|j: int|
            #[trigger] last_for_source(a, j) && !is_iast(a[j].ast_path@) && !map0.contains_key(a[j].module_name@)
                && x == deleted_name(a[j].module_name@) by {
            if name_set(deleted).contains(x) {
                let t = choose|t: int| 0 <= t < impl_names@.len() && !name_set(all_names).contains(#[trigger] impl_names@[t]@)
                    && x == deleted_name(impl_names@[t]@);
                assert(im[t] == impl_names@[t]@);
                assert(im.contains(im[t]));
                let j = choose|j: int| 0 <= j < n && #[trigger] last_for_source(a, j) && !is_iast(a[j].ast_path@) && a[j].module_name@ == im[t];
                assert(last_for_source(a, j) && !is_iast(a[j].ast_path@) && !map0.contains_key(a[j].module_name@)
                    && x == deleted_name(a[j].module_name@));
            }
            if exists|j: int| #[trigger] last_for_source(a, j) && !is_iast(a[j].ast_path@) && !map0.contains_key(a[j].module_name@)
                && x == deleted_name(a[j].module_name@) {
                let j = choose|j: int| #[trigger] last_for_source(a, j) && !is_iast(a[j].ast_path@) && !map0.contains_key(a[j].module_name@)
                    && x == deleted_name(a[j].module_name@);
                assert(implementation_ast_before(a, n as int, a[j].module_name@));
                assert(im.contains(a[j].module_name@));
                let t = choose|t: int| 0 <= t < im.len() && im[t] == a[j].module_name@;
                assert(impl_names@[t]@ == im[t]);
                assert(!name_set(all_names).contains(impl_names@[t]@));
            }
        }
    }
    CleanupPlan { stale, stale_count, total, deleted }
}


/// Where the files of a module are: its implementation and interface files,
/// each under its package's folder.
pub open spec fn module_sources(m: Module, packages: Seq<(String, String)>) -> Set<Seq<char>> {
    match m.source_type {
        SourceType::SourceFile(sf) => {
            let folder = crate::watcher::package_folder(packages, m.package_name@);
            let imp = set![crate::watcher::joined(folder, sf.implementation.path@)];
            match sf.interface {
                Some(i) => imp.insert(crate::watcher::joined(folder, i.path@)),
                None => imp,
            }
        },
        SourceType::MlMap(_) => Set::empty(),
    }
}

/// The paths of all source files of the build, as the ASTs name them: each
/// module's implementation and interface file under its package's folder
/// (`packages` gives each package's folder by name).
pub fn source_locations(modules: &ahash::AHashMap<String, Module>, packages: &Vec<(String, String)>) -> (r: Vec<String>)
    requires
        forall|k: Seq<char>| #[trigger] module_map(*modules).contains_key(k) ==> crate::watcher::has_package(
            packages@,
            module_map(*modules)[k].package_name@,
        ),
    ensures
        forall|s: Seq<char>| #[trigger] r.deep_view().contains(s) <==> exists|k: Seq<char>|
            module_map(*modules).contains_key(k) && #[trigger] module_sources(module_map(*modules)[k], packages@).contains(s),
{
    let ghost map = module_map(*modules);
    let names = module_names(modules);
    let ghost nv = names.deep_view();
    let mut out: Vec<String> = Vec::new();
    let mut k: usize = 0;
    while k < names.len()
        invariant
            map == module_map(*modules),
            nv == names.deep_view(),
            nv.to_set() == map.dom(),
            k <= names@.len(),
            forall|s: Seq<char>| #[trigger] out.deep_view().contains(s) <==> exists|t: int|
                0 <= t < k && #[trigger] module_sources(map[nv[t]], packages@).contains(s),
        decreases names@.len() - k,
    {
        assert(nv.to_set().contains(nv[k as int]));
        assert(nv[k as int] == names@[k as int]@);
        let ghost before = out.deep_view();
        let ghost m = map[nv[k as int]];
        let ghost mut added: Seq<Seq<char>> = Seq::empty();
        match crate::packages::get_module(modules, &names[k]) {
            Some(module) => {
                match &module.source_type {
                    SourceType::SourceFile(sf) => {
                        let folder = crate::watcher::package_folder_of(packages, &module.package_name);
                        let p1 = crate::watcher::join_path(folder.as_str(), sf.implementation.path.as_str());
                        proof {
                            added = seq![p1@];
                        }
                        out.push(p1);
                        match &sf.interface {
                            Some(i) => {
                                let p2 = crate::watcher::join_path(folder.as_str(), i.path.as_str());
                                proof {
                                    added = added.push(p2@);
                                }
                                out.push(p2);
                            },
                            None => {},
                        }
                    },
                    SourceType::MlMap(_) => {},
                }
                assert(out.deep_view() =~= before + added);
                assert forall|x: Seq<char>| added.contains(x) <==> module_sources(m, packages@).contains(x) by {
                    if added.contains(x) {
                        let j = choose|j: int| 0 <= j < added.len() && added[j] == x;
                    }
                    if module_sources(m, packages@).contains(x) {
                        if added.len() > 0 && x == added[0] {
                        } else {
                            assert(added.len() == 2 && x == added[1]);
                        }
                    }
                }
            },
            None => {
                assert(false);
            },
        }
        proof {
            assert forall|s: Seq<char>| #[trigger] out.deep_view().contains(s) <==> exists|t: int|
                0 <= t < k + 1 && #[trigger] module_sources(map[nv[t]], packages@).contains(s) by {
                if out.deep_view().contains(s) {
                    let j = choose|j: int| 0 <= j < out.deep_view().len() && out.deep_view()[j] == s;
                    if j < before.len() {
                        assert(before.contains(s));
                        let t = choose|t: int| 0 <= t < k && #[trigger] module_sources(map[nv[t]], packages@).contains(s);
                        assert(0 <= t < k + 1);
                    } else {
                        assert(added[j - before.len()] == s);
                        assert(module_sources(map[nv[k as int]], packages@).contains(s));
                    }
                }
                if exists|t: int| 0 <= t < k + 1 && #[trigger] module_sources(map[nv[t]], packages@).contains(s) {
                    let t = choose|t: int| 0 <= t < k + 1 && #[trigger] module_sources(map[nv[t]], packages@).contains(s);
                    if t < k {
                        assert(before.contains(s));
                        let j = choose|j: int| 0 <= j < before.len() && before[j] == s;
                        assert(out.deep_view()[j] == s);
                    } else {
                        assert(added.contains(s));
                        let j = choose|j: int| 0 <= j < added.len() && added[j] == s;
                        assert(out.deep_view()[before.len() + j] == s);
                    }
                }
            }
        }
        k = k + 1;
    }
    proof {
        assert forall|s: Seq<char>| #[trigger] out.deep_view().contains(s) <==> exists|key: Seq<char>|
            map.contains_key(key) && #[trigger] module_sources(map[key], packages@).contains(s) by {
            if out.deep_view().contains(s) {
                let t = choose|t: int| 0 <= t < k && #[trigger] module_sources(map[nv[t]], packages@).contains(s);
                assert(nv.to_set().contains(nv[t]));
                assert(map.contains_key(nv[t]));
            }
            if exists|key: Seq<char>| map.contains_key(key) && #[trigger] module_sources(map[key], packages@).contains(s) {
                let key = choose|key: Seq<char>| map.contains_key(key) && #[trigger] module_sources(map[key], packages@).contains(s);
                assert(nv.to_set().contains(key));
                let t = choose|t: int| 0 <= t < nv.len() && nv[t] == key;
                assert(module_sources(map[nv[t]], packages@).contains(s));
            }
        }
    }
    out
}


/// The namespace suffix of package `name`: that of the first entry for it.
pub open spec fn namespace_in(packages: Seq<(String, crate::packages::Namespace)>, name: Seq<char>) -> Option<Seq<char>>
    decreases packages.len(),
{
    if packages.len() == 0 {
        None
    } else if packages[0].0@ == name {
        crate::packages::namespace_suffix(packages[0].1)
    } else {
        namespace_in(packages.drop_first(), name)
    }
}

fn namespace_of(packages: &Vec<(String, crate::packages::Namespace)>, name: &String) -> (r: Option<String>)
    ensures
        r.deep_view() == namespace_in(packages@, name@),
{
    let mut k: usize = 0;
    assert(packages@.skip(0) =~= packages@);
    while k < packages.len()
        invariant
            k <= packages@.len(),
            namespace_in(packages@, name@) == namespace_in(packages@.skip(k as int), name@),
        decreases packages@.len() - k,
    {
        let ghost rest = packages@.skip(k as int);
        assert(rest.drop_first() =~= packages@.skip(k + 1));
        assert(rest[0] == packages@[k as int]);
        if crate::text::str_equals(packages[k].0.as_str(), name.as_str()) {
            return packages[k].1.to_suffix();
        }
        k = k + 1;
    }
    None
}

/// What a build leaves that must go once it is done: of a module of a
/// source file that did not parse cleanly, the ASTs of its implementation
/// file (interface AST first); of one that did not compile cleanly, its
/// compiled output (`cmj`, `cmi`, `cmt`, `cmti`) in the package's build
/// folder, named under the package's namespace. A namespace map leaves
/// nothing.
pub open spec fn module_removals(
    m: Module,
    packages: Seq<(String, crate::packages::Namespace)>,
    root_path: Seq<char>,
) -> Seq<Seq<char>> {
    match m.source_type {
        SourceType::SourceFile(sf) => {
            let src = sf.implementation.path@;
            let pkg = m.package_name@;
            let ns = namespace_in(packages, pkg);
            let asset = |e: Seq<char>| crate::helpers::compiler_asset(src, pkg, ns, root_path, e);
            (if module_failed_to_parse(m) {
                seq![
                    crate::helpers::compiler_asset(src, pkg, None, root_path, "iast"@),
                    crate::helpers::compiler_asset(src, pkg, None, root_path, "ast"@),
                ]
            } else {
                Seq::empty()
            }) + (if module_failed_to_compile(m) {
                seq![asset("cmj"@), asset("cmi"@), asset("cmt"@), asset("cmti"@)]
            } else {
                Seq::empty()
            })
        },
        SourceType::MlMap(_) => Seq::empty(),
    }
}

/// The files of a module's implementation have a file name.
pub open spec fn implementation_named(m: Module) -> bool {
    match m.source_type {
        SourceType::SourceFile(sf) => crate::paths::file_name(sf.implementation.path@) is Some,
        SourceType::MlMap(_) => true,
    }
}

fn removals_of_module(
    module: &Module,
    packages: &Vec<(String, crate::packages::Namespace)>,
    root_path: &str,
) -> (r: Vec<String>)
    requires
        implementation_named(*module),
    ensures
        r.deep_view() == module_removals(*module, packages@, root_path@),
{
    let mut out: Vec<String> = Vec::new();
    match &module.source_type {
        SourceType::SourceFile(sf) => {
            let src = sf.implementation.path.as_str();
            let pkg = module.package_name.as_str();
            let none: Option<String> = None;
            if failed_to_parse(module) {
                out.push(crate::helpers::get_compiler_asset(src, pkg, &none, root_path, "iast"));
                out.push(crate::helpers::get_compiler_asset(src, pkg, &none, root_path, "ast"));
            }
            let ghost parsed = out.deep_view();
            if failed_to_compile(module) {
                let ns = namespace_of(packages, &module.package_name);
                out.push(crate::helpers::get_compiler_asset(src, pkg, &ns, root_path, "cmj"));
                out.push(crate::helpers::get_compiler_asset(src, pkg, &ns, root_path, "cmi"));
                out.push(crate::helpers::get_compiler_asset(src, pkg, &ns, root_path, "cmt"));
                out.push(crate::helpers::get_compiler_asset(src, pkg, &ns, root_path, "cmti"));
            }
            proof {
                let m = *module;
                let ns = namespace_in(packages@, m.package_name@);
                let asset = |e: Seq<char>| crate::helpers::compiler_asset(sf.implementation.path@, m.package_name@, ns, root_path@, e);
                if module_failed_to_compile(m) {
                    assert(out.deep_view() =~= parsed + seq![asset("cmj"@), asset("cmi"@), asset("cmt"@), asset("cmti"@)]);
                } else {
                    assert(out.deep_view() =~= parsed + Seq::empty());
                }
                if module_failed_to_parse(m) {
                    assert(parsed =~= seq![
                        crate::helpers::compiler_asset(sf.implementation.path@, m.package_name@, None, root_path@, "iast"@),
                        crate::helpers::compiler_asset(sf.implementation.path@, m.package_name@, None, root_path@, "ast"@),
                    ]);
                } else {
                    assert(parsed =~= Seq::<Seq<char>>::empty());
                }
            }
        },
        SourceType::MlMap(_) => {
            assert(out.deep_view() =~= Seq::<Seq<char>>::empty());
        },
    }
    out
}

/// The files to remove once a build is done (see `module_removals`), for
/// every module of the build; `packages` gives each package's namespace by
/// name, and every module's package must be among them.
pub fn after_build_removals(
    modules: &ahash::AHashMap<String, Module>,
    packages: &Vec<(String, crate::packages::Namespace)>,
    root_path: &str,
) -> (r: Vec<String>)
    requires
        forall|k: Seq<char>| #[trigger] module_map(*modules).contains_key(k) ==> implementation_named(module_map(*modules)[k]),
        forall|k: Seq<char>| #[trigger] module_map(*modules).contains_key(k) ==> exists|i: int|
            0 <= i < packages@.len() && #[trigger] packages@[i].0@ == module_map(*modules)[k].package_name@,
    ensures
        forall|s: Seq<char>| #[trigger] r.deep_view().contains(s) <==> exists|k: Seq<char>|
            module_map(*modules).contains_key(k) && #[trigger] module_removals(module_map(*modules)[k], packages@, root_path@).contains(s),
{
    let ghost map = module_map(*modules);
    let names = module_names(modules);
    let ghost nv = names.deep_view();
    let mut out: Vec<String> = Vec::new();
    let mut k: usize = 0;
    while k < names.len()
        invariant
            map == module_map(*modules),
            nv == names.deep_view(),
            nv.to_set() == map.dom(),
            forall|key: Seq<char>| #[trigger] map.contains_key(key) ==> implementation_named(map[key]),
            k <= names@.len(),
            forall|s: Seq<char>| #[trigger] out.deep_view().contains(s) <==> exists|t: int|
                0 <= t < k && #[trigger] module_removals(map[nv[t]], packages@, root_path@).contains(s),
        decreases names@.len() - k,
    {
        assert(nv.to_set().contains(nv[k as int]));
        assert(nv[k as int] == names@[k as int]@);
        let ghost before = out.deep_view();
        let ghost m = map[nv[k as int]];
        match crate::packages::get_module(modules, &names[k]) {
            Some(module) => {
                let more = removals_of_module(module, packages, root_path);
                crate::text::extend_strings(&mut out, &more);
                proof {
                    let added = more.deep_view();
                    assert(added == module_removals(m, packages@, root_path@));
                    assert forall|s: Seq<char>| #[trigger] out.deep_view().contains(s) <==> exists|t: int|
                        0 <= t < k + 1 && #[trigger] module_removals(map[nv[t]], packages@, root_path@).contains(s) by {
                        if out.deep_view().contains(s) {
                            let j = choose|j: int| 0 <= j < out.deep_view().len() && out.deep_view()[j] == s;
                            if j < before.len() {
                                assert(before[j] == s);
                                assert(before.contains(s));
                                let t = choose|t: int| 0 <= t < k && #[trigger] module_removals(map[nv[t]], packages@, root_path@).contains(s);
                                assert(0 <= t < k + 1);
                            } else {
                                assert(added[j - before.len()] == s);
                                assert(module_removals(map[nv[k as int]], packages@, root_path@).contains(s));
                            }
                        }
                        if exists|t: int| 0 <= t < k + 1 && #[trigger] module_removals(map[nv[t]], packages@, root_path@).contains(s) {
                            let t = choose|t: int| 0 <= t < k + 1 && #[trigger] module_removals(map[nv[t]], packages@, root_path@).contains(s);
                            if t < k {
                                assert(before.contains(s));
                                let j = choose|j: int| 0 <= j < before.len() && before[j] == s;
                                assert(out.deep_view()[j] == s);
                            } else {
                                assert(added.contains(s));
                                let j = choose|j: int| 0 <= j < added.len() && added[j] == s;
                                assert(out.deep_view()[before.len() + j] == s);
                            }
                        }
                    }
                }
            },
            None => {
                assert(false);
            },
        }
        k = k + 1;
    }
    proof {
        assert forall|s: Seq<char>| #[trigger] out.deep_view().contains(s) <==> exists|key: Seq<char>|
            map.contains_key(key) && #[trigger] module_removals(map[key], packages@, root_path@).contains(s) by {
            if out.deep_view().contains(s) {
                let t = choose|t: int| 0 <= t < k && #[trigger] module_removals(map[nv[t]], packages@, root_path@).contains(s);
                assert(nv.to_set().contains(nv[t]));
                assert(map.contains_key(nv[t]));
            }
            if exists|key: Seq<char>| map.contains_key(key) && #[trigger] module_removals(map[key], packages@, root_path@).contains(s) {
                let key = choose|key: Seq<char>| map.contains_key(key) && #[trigger] module_removals(map[key], packages@, root_path@).contains(s);
                assert(nv.to_set().contains(key));
                let t = choose|t: int| 0 <= t < nv.len() && nv[t] == key;
                assert(module_removals(map[nv[t]], packages@, root_path@).contains(s));
            }
        }
    }
    out
}


/// The time a module of a source file last changed is the latest of its
/// files' times: no earlier than its implementation's or its interface's,
/// and one of them.
pub proof fn lemma_last_modified_is_latest(m: Module)
    requires
        m.source_type is SourceFile,
    ensures
        ({
            let sf = m.source_type->SourceFile_0;
            &&& module_last_modified(m) is Some
            &&& module_last_modified(m).unwrap() >= sf.implementation.last_modified
            &&& sf.interface matches Some(i) ==> module_last_modified(m).unwrap() >= i.last_modified
            &&& module_last_modified(m).unwrap() == sf.implementation.last_modified || (sf.interface matches Some(i)
                && module_last_modified(m).unwrap() == i.last_modified)
        }),
{
}

/// A module is spared compiling only when its compiled interface is newer
/// than both its files and its interface file was not deleted: a module
/// with a source file at least as new as its compiled interface (or with
/// none) keeps what it had. An AST spares parsing only the file it was made
/// from, and only when it is newer than that file (for an implementation,
/// also only when the interface file was not deleted); nothing else of the
/// module changes.
pub proof fn lemma_unchanged_only_when_newer(
    m: Module,
    cmi_modified: Option<u128>,
    ast_modified: u128,
    ast_file_path: Seq<char>,
    interface_deleted: bool,
)
    requires
        m.source_type is SourceFile,
    ensures
        ({
            let sf = m.source_type->SourceFile_0;
            let n = unchanged_mark(m, cmi_modified, ast_modified, ast_file_path, interface_deleted);
            let nf = n.source_type->SourceFile_0;
            let compiled_newer = cmi_modified matches Some(c) && c > sf.implementation.last_modified && (
            sf.interface matches Some(i) ==> c > i.last_modified);
            &&& n.source_type is SourceFile
            &&& n.compile_dirty == (m.compile_dirty && !(compiled_newer && !interface_deleted))
            &&& nf.implementation.parse_dirty == (sf.implementation.parse_dirty && !(!is_iast(ast_file_path)
                && ast_modified > sf.implementation.last_modified && !interface_deleted))
            &&& nf.implementation.path == sf.implementation.path
            &&& nf.implementation.last_modified == sf.implementation.last_modified
            &&& nf.interface is Some == sf.interface is Some
            &&& sf.interface matches Some(i) ==> nf.interface->Some_0.parse_dirty == (i.parse_dirty && !(is_iast(
                ast_file_path,
            ) && ast_modified > i.last_modified))
            &&& n.package_name == m.package_name
            &&& n.deps == m.deps
        }),
{
    lemma_last_modified_is_latest(m);
}

/// What a finished build removes of a module of a source file: both its ASTs
/// exactly when its implementation or its interface did not parse cleanly
/// (an error or warnings), and its compiled output (`cmj`, `cmi`, `cmt`,
/// `cmti`, under its package's namespace) exactly when one of them did not
/// compile cleanly; nothing else.
pub proof fn lemma_removals_of_failed_modules(
    m: Module,
    packages: Seq<(String, crate::packages::Namespace)>,
    root_path: Seq<char>,
)
    requires
        m.source_type is SourceFile,
    ensures
        ({
            let sf = m.source_type->SourceFile_0;
            let src = sf.implementation.path@;
            let pkg = m.package_name@;
            let ns = namespace_in(packages, pkg);
            let r = module_removals(m, packages, root_path);
            let parse_bad = parse_failed(sf.implementation.parse_state) || (sf.interface is Some && parse_failed(
                sf.interface->Some_0.parse_state,
            ));
            let compile_bad = compile_failed(sf.implementation.compile_state) || (sf.interface is Some
                && compile_failed(sf.interface->Some_0.compile_state));
            &&& r.len() == (if parse_bad { 2int } else { 0int }) + (if compile_bad { 4int } else { 0int })
            &&& parse_bad ==> r.contains(crate::helpers::compiler_asset(src, pkg, None, root_path, "ast"@))
                && r.contains(crate::helpers::compiler_asset(src, pkg, None, root_path, "iast"@))
            &&& compile_bad ==> r.contains(crate::helpers::compiler_asset(src, pkg, ns, root_path, "cmj"@))
                && r.contains(crate::helpers::compiler_asset(src, pkg, ns, root_path, "cmi"@))
                && r.contains(crate::helpers::compiler_asset(src, pkg, ns, root_path, "cmt"@))
                && r.contains(crate::helpers::compiler_asset(src, pkg, ns, root_path, "cmti"@))
        }),
{
    let sf = m.source_type->SourceFile_0;
    let src = sf.implementation.path@;
    let pkg = m.package_name@;
    let ns = namespace_in(packages, pkg);
    let r = module_removals(m, packages, root_path);
    let p = if module_failed_to_parse(m) {
        seq![
            crate::helpers::compiler_asset(src, pkg, None, root_path, "iast"@),
            crate::helpers::compiler_asset(src, pkg, None, root_path, "ast"@),
        ]
    } else {
        Seq::empty()
    };
    let asset = |e: Seq<char>| crate::helpers::compiler_asset(src, pkg, ns, root_path, e);
    let c = if module_failed_to_compile(m) {
        seq![asset("cmj"@), asset("cmi"@), asset("cmt"@), asset("cmti"@)]
    } else {
        Seq::empty()
    };
    assert(r == p + c);
    if module_failed_to_parse(m) {
        assert(r[0] == p[0]);
        assert(r[1] == p[1]);
    }
    if module_failed_to_compile(m) {
        let o = p.len() as int;
        assert(r[o] == c[0]);
        assert(r[o + 1] == c[1]);
        assert(r[o + 2] == c[2]);
        assert(r[o + 3] == c[3]);
    }
}

} // verus!
