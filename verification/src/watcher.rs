//! Deciding, as file changes come in, which files matter and what the next
//! build must be. Waiting for changes and running builds is left to the
//! caller, which hands each change in and carries out each decision.
use vstd::prelude::*;
use crate::filter::{Filter, regex_matches};
use crate::helpers::{implementation_extension, interface_extension};
use crate::paths::{extension, file_name};
use crate::text::contains;
use crate::paths::{has_root, pieces};
use crate::build_types::{Implementation, Interface, Module, SourceFile, SourceType};
use crate::packages::{module_map, module_names, put_module, take_module};

verus! {

/// The build that the changes seen so far call for.
#[derive(Debug, Clone, Copy, PartialEq, Eq, Structural)]
pub enum CompileType {
    Incremental,
    Full,
    NoCompile,
}

/// What changed about a file's contents or attributes.
#[derive(Debug, Clone, Copy, PartialEq, Eq, Structural)]
pub enum ModifyKind {
    Any,
    Data,
    Metadata,
    Name,
    Other,
}

/// The kind of a file-system event.
#[derive(Debug, Clone, Copy, PartialEq, Eq, Structural)]
pub enum EventKind {
    Any,
    Access,
    Create,
    Modify(ModifyKind),
    Remove,
    Other,
}

/// How to answer one event about a relevant file.
#[derive(Debug, Clone, Copy, PartialEq, Eq, Structural)]
pub enum EventResponse {
    /// A file appeared, disappeared or was renamed: rescan everything.
    NeedsFull,
    /// A file's contents changed: mark that file dirty and build incrementally.
    MarkDirty,
    /// Nothing to do.
    Ignore,
}

/// A source file of ReScript, Reason or OCaml, by its extension.
pub open spec fn rescript_file(path: Seq<char>) -> bool {
    match extension(path) {
        Some(e) => implementation_extension(e) || interface_extension(e),
        None => false,
    }
}

pub fn is_rescript_file(path: &str) -> (r: bool)
    ensures
        r == rescript_file(path@),
{
    match crate::paths::extension_of_path(path) {
        Some(e) => crate::helpers::is_implementation_file(e.as_str())
            || crate::helpers::is_interface_file(e.as_str()),
        None => false,
    }
}

/// A path inside a build folder (`lib/bs` or `lib/ocaml`); a path that is
/// not valid text (`None`) is not.
pub open spec fn in_build_path(path: Option<Seq<char>>) -> bool {
    match path {
        Some(p) => contains(p, "/lib/bs/"@) || contains(p, "/lib/ocaml/"@),
        None => false,
    }
}

pub fn is_in_build_path(path: Option<&str>) -> (r: bool)
    ensures
        r == in_build_path(
            match path {
                Some(p) => Some(p@),
                None => None,
            },
        ),
{
    match path {
        Some(p) => crate::text::str_contains(p, "/lib/bs/") || crate::text::str_contains(p, "/lib/ocaml/"),
        None => false,
    }
}

/// A file is watched unless a filter is given and matches its name (a path
/// without a file name counts as the empty name).
pub open spec fn passes_filter(path: Seq<char>, pattern: Option<Seq<char>>) -> bool {
    let name = match file_name(path) {
        Some(n) => n,
        None => Seq::empty(),
    };
    match pattern {
        Some(p) => !regex_matches(p, name),
        None => true,
    }
}

pub fn matches_filter(path: &str, filter: &Option<Filter>) -> (r: bool)
    ensures
        r == passes_filter(
            path@,
            match filter {
                Some(f) => Some(f.pattern()),
                None => None,
            },
        ),
{
    let name = match crate::paths::file_name_of(path) {
        Some(n) => n,
        None => String::new(),
    };
    match filter {
        Some(re) => !re.is_match(name.as_str()),
        None => true,
    }
}

/// A changed file that the watcher acts on: a source file, outside the build
/// folders, that the filter does not exclude. `lossy` is the path as text
/// (invalid bytes replaced), `exact` the path when it is valid text.
pub open spec fn relevant(lossy: Seq<char>, exact: Option<Seq<char>>, pattern: Option<Seq<char>>) -> bool {
    rescript_file(lossy) && !in_build_path(exact) && passes_filter(lossy, pattern)
}

pub fn is_relevant(lossy: &str, exact: Option<&str>, filter: &Option<Filter>) -> (r: bool)
    ensures
        r == relevant(
            lossy@,
            match exact {
                Some(p) => Some(p@),
                None => None,
            },
            match filter {
                Some(f) => Some(f.pattern()),
                None => None,
            },
        ),
{
    is_rescript_file(lossy) && !is_in_build_path(exact) && matches_filter(lossy, filter)
}

/// The answer to an event: renames, creations, removals and unknown events
/// call for a full build, content changes for marking the file dirty; once a
/// full build is due, nothing else matters.
pub open spec fn response(needs: CompileType, kind: EventKind) -> EventResponse {
    match needs {
        CompileType::Full => EventResponse::Ignore,
        _ => match kind {
            EventKind::Remove | EventKind::Any | EventKind::Create | EventKind::Modify(
                ModifyKind::Name,
            ) => EventResponse::NeedsFull,
            EventKind::Modify(ModifyKind::Data) => EventResponse::MarkDirty,
            _ => EventResponse::Ignore,
        },
    }
}

pub fn respond(needs: CompileType, kind: EventKind) -> (r: EventResponse)
    ensures
        r == response(needs, kind),
{
    match needs {
        CompileType::Full => EventResponse::Ignore,
        _ => match kind {
            EventKind::Remove | EventKind::Any | EventKind::Create | EventKind::Modify(
                ModifyKind::Name,
            ) => EventResponse::NeedsFull,
            EventKind::Modify(ModifyKind::Data) => EventResponse::MarkDirty,
            _ => EventResponse::Ignore,
        },
    }
}

/// The build needed after answering an event. `marked` says whether the
/// changed file could be resolved and marked dirty.
pub open spec fn needs_after(needs: CompileType, answer: EventResponse, marked: bool) -> CompileType {
    match answer {
        EventResponse::NeedsFull => CompileType::Full,
        EventResponse::MarkDirty => if marked {
            CompileType::Incremental
        } else {
            needs
        },
        EventResponse::Ignore => needs,
    }
}

pub fn after_event(needs: CompileType, answer: EventResponse, marked: bool) -> (r: CompileType)
    ensures
        r == needs_after(needs, answer, marked),
{
    match answer {
        EventResponse::NeedsFull => CompileType::Full,
        EventResponse::MarkDirty => if marked {
            CompileType::Incremental
        } else {
            needs
        },
        EventResponse::Ignore => needs,
    }
}

/// Where the watch loop stands between rounds.
#[derive(Debug, Clone, Copy, PartialEq, Eq, Structural)]
pub struct WatchState {
    pub needs_compile_type: CompileType,
    /// No build has run yet.
    pub initial_build: bool,
}

/// What a round of the watch loop does once the pending events are answered.
#[derive(Debug, Clone, Copy, PartialEq, Eq, Structural)]
pub enum RoundAction {
    /// Build what changed; `initial` says whether this is the first build.
    IncrementalBuild { initial: bool },
    /// Rescan the project and build it; `initial` as above.
    FullBuild { initial: bool },
    /// Nothing to build: pause before looking again.
    Wait,
}

/// The action of a round and the state after it: a build clears what was
/// pending and ends the initial phase; waiting changes nothing.
pub open spec fn round_of(state: WatchState) -> (RoundAction, WatchState) {
    let done = WatchState { needs_compile_type: CompileType::NoCompile, initial_build: false };
    match state.needs_compile_type {
        CompileType::Incremental => (RoundAction::IncrementalBuild { initial: state.initial_build }, done),
        CompileType::Full => (RoundAction::FullBuild { initial: state.initial_build }, done),
        CompileType::NoCompile => (RoundAction::Wait, state),
    }
}

pub fn round(state: WatchState) -> (r: (RoundAction, WatchState))
    ensures
        r == round_of(state),
{
    let done = WatchState { needs_compile_type: CompileType::NoCompile, initial_build: false };
    match state.needs_compile_type {
        CompileType::Incremental => (RoundAction::IncrementalBuild { initial: state.initial_build }, done),
        CompileType::Full => (RoundAction::FullBuild { initial: state.initial_build }, done),
        CompileType::NoCompile => (RoundAction::Wait, state),
    }
}

/// The state the watch loop starts in: an incremental first build is due.
pub fn initial_state() -> (r: WatchState)
    ensures
        r == (WatchState { needs_compile_type: CompileType::Incremental, initial_build: true }),
{
    WatchState { needs_compile_type: CompileType::Incremental, initial_build: true }
}

/// Once a full build is due, no event takes it back.
pub proof fn lemma_full_build_stays(kind: EventKind, marked: bool)
    ensures
        needs_after(CompileType::Full, response(CompileType::Full, kind), marked) == CompileType::Full,
{
}

/// An event that adds, removes or renames a file always leads to a full build.
pub proof fn lemma_structure_change_needs_full(needs: CompileType, kind: EventKind, marked: bool)
    requires
        kind == EventKind::Create || kind == EventKind::Remove || kind == EventKind::Modify(
            ModifyKind::Name,
        ),
    ensures
        needs_after(needs, response(needs, kind), marked) == CompileType::Full,
{
}

/// Events never lower a pending build: after any event the build due is at
/// least what was due before (full over incremental over none).
pub proof fn lemma_events_never_lower(needs: CompileType, kind: EventKind, marked: bool)
    ensures
        needs == CompileType::Full ==> needs_after(needs, response(needs, kind), marked)
            == CompileType::Full,
        needs == CompileType::Incremental ==> needs_after(needs, response(needs, kind), marked)
            != CompileType::NoCompile,
{
}

/// Each round with a build leaves nothing pending and ends the first phase;
/// the following round then waits until an event arrives.
pub proof fn lemma_build_round_settles(state: WatchState)
    requires
        state.needs_compile_type != CompileType::NoCompile,
    ensures
        round_of(state).1.needs_compile_type == CompileType::NoCompile,
        !round_of(state).1.initial_build,
        round_of(round_of(state).1).0 == RoundAction::Wait,
{
}


/// `PathBuf::join`: an absolute `rel` replaces `base`; otherwise `rel` is
/// appended after a `/`, unless `base` is empty or ends with one.
pub open spec fn joined(base: Seq<char>, rel: Seq<char>) -> Seq<char> {
    if has_root(rel) {
        rel
    } else if base.len() > 0 && base.last() != '/' {
        base + seq!['/'] + rel
    } else {
        base + rel
    }
}

/// Two paths name the same file as `Path`'s `==` compares absolute paths:
/// both rooted or both not, with the same components.
pub open spec fn same_path(a: Seq<char>, b: Seq<char>) -> bool {
    has_root(a) == has_root(b) && pieces(a) == pieces(b)
}

/// The folder of package `name`: the first entry for it.
pub open spec fn package_folder(packages: Seq<(String, String)>, name: Seq<char>) -> Seq<char>
    decreases packages.len(),
{
    if packages.len() == 0 {
        Seq::empty()
    } else if packages[0].0@ == name {
        packages[0].1@
    } else {
        package_folder(packages.drop_first(), name)
    }
}

pub open spec fn has_package(packages: Seq<(String, String)>, name: Seq<char>) -> bool {
    exists|i: int| 0 <= i < packages.len() && #[trigger] packages[i].0@ == name
}

/// The implementation file of module `m`, under its package's folder, is
/// the changed file.
pub open spec fn implementation_changed(m: Module, packages: Seq<(String, String)>, changed: Seq<char>) -> bool {
    m.source_type matches SourceType::SourceFile(sf) && same_path(
        changed,
        joined(package_folder(packages, m.package_name@), sf.implementation.path@),
    )
}

/// The interface file of module `m` is the changed file.
pub open spec fn interface_changed(m: Module, packages: Seq<(String, String)>, changed: Seq<char>) -> bool {
    m.source_type matches SourceType::SourceFile(sf) && (sf.interface matches Some(i) && same_path(
        changed,
        joined(package_folder(packages, m.package_name@), i.path@),
    ))
}

/// Module `m` with its changed file marked: the implementation if it is the
/// changed file, else the interface; the file must be parsed again, and
/// takes the new time when there is one.
pub open spec fn marked_changed(m: Module, packages: Seq<(String, String)>, changed: Seq<char>, modified: Option<u128>) -> Module {
    match m.source_type {
        SourceType::SourceFile(sf) => if implementation_changed(m, packages, changed) {
            Module {
                source_type: SourceType::SourceFile(
                    SourceFile {
                        implementation: Implementation {
                            last_modified: match modified {
                                Some(t) => t,
                                None => sf.implementation.last_modified,
                            },
                            parse_dirty: true,
                            ..sf.implementation
                        },
                        ..sf
                    },
                ),
                ..m
            }
        } else {
            match sf.interface {
                Some(i) => Module {
                    source_type: SourceType::SourceFile(
                        SourceFile {
                            interface: Some(
                                Interface {
                                    last_modified: match modified {
                                        Some(t) => t,
                                        None => i.last_modified,
                                    },
                                    parse_dirty: true,
                                    ..i
                                },
                            ),
                            ..sf
                        },
                    ),
                    ..m
                },
                None => m,
            }
        },
        SourceType::MlMap(_) => m,
    }
}

pub(crate) fn package_folder_of(packages: &Vec<(String, String)>, name: &String) -> (r: String)
    ensures
        r@ == package_folder(packages@, name@),
{
    let mut k: usize = 0;
    assert(packages@.skip(0) =~= packages@);
    while k < packages.len()
        invariant
            k <= packages@.len(),
            package_folder(packages@, name@) == package_folder(packages@.skip(k as int), name@),
        decreases packages@.len() - k,
    {
        let ghost rest = packages@.skip(k as int);
        assert(rest.drop_first() =~= packages@.skip(k + 1));
        assert(rest[0] == packages@[k as int]);
        if crate::text::str_equals(packages[k].0.as_str(), name.as_str()) {
            return packages[k].1.clone();
        }
        k = k + 1;
    }
    String::new()
}

pub(crate) fn join_path(base: &str, rel: &str) -> (r: String)
    ensures
        r@ == joined(base@, rel@),
{
    let b = crate::text::chars_of(base);
    let c = crate::text::chars_of(rel);
    if c.len() > 0 && c[0] == '/' {
        return rel.to_string();
    }
    let mut r = base.to_string();
    if b.len() > 0 && b[b.len() - 1] != '/' {
        r.push('/');
    }
    r.append(rel);
    r
}

fn same_strings(a: &Vec<String>, b: &Vec<String>) -> (r: bool)
    ensures
        r == (a.deep_view() == b.deep_view()),
{
    if a.len() != b.len() {
        assert(a.deep_view().len() != b.deep_view().len());
        return false;
    }
    let mut k: usize = 0;
    while k < a.len()
        invariant
            a@.len() == b@.len(),
            k <= a@.len(),
            forall|t: int| 0 <= t < k ==> a.deep_view()[t] == b.deep_view()[t],
        decreases a@.len() - k,
    {
        if !crate::text::str_equals(a[k].as_str(), b[k].as_str()) {
            assert(a.deep_view()[k as int] != b.deep_view()[k as int]);
            return false;
        }
        k = k + 1;
    }
    assert(a.deep_view() =~= b.deep_view());
    true
}

fn is_same_path(a: &str, b: &str) -> (r: bool)
    ensures
        r == same_path(a@, b@),
{
    let x = crate::text::chars_of(a);
    let y = crate::text::chars_of(b);
    let rx = x.len() > 0 && x[0] == '/';
    let ry = y.len() > 0 && y[0] == '/';
    rx == ry && same_strings(&crate::paths::component_strings(&x), &crate::paths::component_strings(&y))
}

/// Marks the file that changed, `changed` (an absolute path), as one to
/// parse again, with its new time when it could be read: the implementation
/// or interface file of a module whose package folder (from `packages`, by
/// package name) joined with the file's path is `changed`. The name of the
/// module marked comes back; `None` when no module has that file, and then
/// nothing changed. Where several modules have it, which one is marked
/// depends on the order the map is walked in. Every module's package must
/// be among `packages`.
pub fn mark_changed_file(
    modules: &mut ahash::AHashMap<String, Module>,
    packages: &Vec<(String, String)>,
    changed: &str,
    modified: Option<u128>,
) -> (r: Option<String>)
    requires
        forall|k: Seq<char>| #[trigger] module_map(*old(modules)).contains_key(k) ==> has_package(
            packages@,
            module_map(*old(modules))[k].package_name@,
        ),
    ensures
        match r {
            Some(name) => {
                &&& module_map(*old(modules)).contains_key(name@)
                &&& implementation_changed(module_map(*old(modules))[name@], packages@, changed@)
                    || interface_changed(module_map(*old(modules))[name@], packages@, changed@)
                &&& module_map(*final(modules)) == module_map(*old(modules)).insert(
                    name@,
                    marked_changed(module_map(*old(modules))[name@], packages@, changed@, modified),
                )
            },
            None => {
                &&& module_map(*final(modules)) == module_map(*old(modules))
                &&& forall|k: Seq<char>| #[trigger] module_map(*old(modules)).contains_key(k) ==> !implementation_changed(
                    module_map(*old(modules))[k],
                    packages@,
                    changed@,
                ) && !interface_changed(module_map(*old(modules))[k], packages@, changed@)
            },
        },
{
    let ghost map0 = module_map(*modules);
    let names = module_names(modules);
    let ghost nv = names.deep_view();
    let mut k: usize = 0;
    while k < names.len()
        invariant
            map0 == module_map(*modules),
            map0 == module_map(*old(modules)),
            nv == names.deep_view(),
            nv.to_set() == map0.dom(),
            k <= names@.len(),
            forall|t: int| 0 <= t < k ==> !implementation_changed(#[trigger] map0[nv[t]], packages@, changed@)
                && !interface_changed(map0[nv[t]], packages@, changed@),
        decreases names@.len() - k,
    {
        assert(nv.to_set().contains(nv[k as int]));
        assert(nv[k as int] == names@[k as int]@);
        let name = names[k].clone();
        match take_module(modules, &name) {
            Some(mut m) => {
                let ghost m0 = m;
                let mut hit = false;
                match &mut m.source_type {
                    SourceType::SourceFile(sf) => {
                        let folder = package_folder_of(packages, &m.package_name);
                        let imp = join_path(folder.as_str(), sf.implementation.path.as_str());
                        if is_same_path(changed, imp.as_str()) {
                            if let Some(t) = modified {
                                sf.implementation.last_modified = t;
                            }
                            sf.implementation.parse_dirty = true;
                            hit = true;
                        } else {
                            match &mut sf.interface {
                                Some(i) => {
                                    let ifp = join_path(folder.as_str(), i.path.as_str());
                                    if is_same_path(changed, ifp.as_str()) {
                                        if let Some(t) = modified {
                                            i.last_modified = t;
                                        }
                                        i.parse_dirty = true;
                                        hit = true;
                                    }
                                },
                                None => {},
                            }
                        }
                    },
                    SourceType::MlMap(_) => {},
                }
                if hit {
                    assert(m0 == map0[name@]);
                    assert(implementation_changed(m0, packages@, changed@) || interface_changed(m0, packages@, changed@));
                    assert(m == marked_changed(m0, packages@, changed@, modified));
                    put_module(modules, name.clone(), m);
                    assert(module_map(*modules) =~= map0.insert(name@, marked_changed(m0, packages@, changed@, modified)));
                    return Some(name);
                }
                assert(m == m0);
                put_module(modules, name, m);
                assert(module_map(*modules) =~= map0);
            },
            None => {
                assert(false);
            },
        }
        k = k + 1;
    }
    proof {
        assert forall|key: Seq<char>| #[trigger] map0.contains_key(key) implies !implementation_changed(
            map0[key],
            packages@,
            changed@,
        ) && !interface_changed(map0[key], packages@, changed@) by {
            assert(nv.to_set().contains(key));
            let t = choose|t: int| 0 <= t < nv.len() && nv[t] == key;
            assert(!implementation_changed(map0[nv[t]], packages@, changed@));
        }
    }
    None
}

/// Whether the command to run after a build runs: after every full build,
/// and after an incremental one that succeeded.
pub open spec fn runs_after(action: RoundAction, build_succeeded: bool) -> bool {
    match action {
        RoundAction::FullBuild { .. } => true,
        RoundAction::IncrementalBuild { .. } => build_succeeded,
        RoundAction::Wait => false,
    }
}

/// The command to run once the build of a round is done, if any (see
/// `runs_after`).
pub fn command_after_build(after_build: &Option<String>, action: RoundAction, build_succeeded: bool) -> (r: Option<String>)
    ensures
        r.deep_view() == (if runs_after(action, build_succeeded) {
            after_build.deep_view()
        } else {
            None
        }),
{
    let runs = match action {
        RoundAction::FullBuild { .. } => true,
        RoundAction::IncrementalBuild { .. } => build_succeeded,
        RoundAction::Wait => false,
    };
    if runs {
        match after_build {
            Some(c) => Some(c.clone()),
            None => None,
        }
    } else {
        None
    }
}


/// The build due after a batch of events on relevant files, each with
/// whether its file could be marked, answered in order.
pub open spec fn after_batch(needs: CompileType, events: Seq<(EventKind, bool)>) -> CompileType
    decreases events.len(),
{
    if events.len() == 0 {
        needs
    } else {
        let prev = after_batch(needs, events.drop_last());
        needs_after(prev, response(prev, events.last().0), events.last().1)
    }
}

/// An event that adds, removes or renames a file (or of unknown kind).
pub open spec fn structural(kind: EventKind) -> bool {
    kind == EventKind::Create || kind == EventKind::Remove || kind == EventKind::Any || kind == EventKind::Modify(
        ModifyKind::Name,
    )
}

/// A batch with an event that adds, removes or renames a relevant file makes
/// the next round a full build (the project is scanned again), whatever came
/// before or after it in the batch.
pub proof fn lemma_structural_batch_full(state: WatchState, events: Seq<(EventKind, bool)>, i: int)
    requires
        0 <= i < events.len(),
        structural(events[i].0),
    ensures
        after_batch(state.needs_compile_type, events) == CompileType::Full,
        round_of((WatchState { needs_compile_type: after_batch(state.needs_compile_type, events), ..state })).0
            == (RoundAction::FullBuild { initial: state.initial_build }),
    decreases events.len(),
{
    if i < events.len() - 1 {
        lemma_structural_batch_full(state, events.drop_last(), i);
        lemma_full_build_stays(events.last().0, events.last().1);
    } else {
        assert(events.last() == events[i]);
    }
}


/// Until a full build is due, the answer to an event depends on the event
/// alone: adding, removing or renaming a file (or an event of unknown kind)
/// calls for a full build, a change of a file's contents marks that file
/// dirty, and nothing else matters; once a full build is due every event is
/// ignored.
pub proof fn lemma_response_by_event(needs: CompileType, other: CompileType, kind: EventKind)
    ensures
        needs != CompileType::Full && other != CompileType::Full ==> response(needs, kind) == response(other, kind),
        needs != CompileType::Full ==> (response(needs, kind) == EventResponse::NeedsFull <==> structural(kind)),
        needs != CompileType::Full ==> (response(needs, kind) == EventResponse::MarkDirty <==> kind == EventKind::Modify(
            ModifyKind::Data,
        )),
        needs == CompileType::Full ==> response(needs, kind) == EventResponse::Ignore,
{
}

} // verus!
