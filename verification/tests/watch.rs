use rewatch::build_types::{CompileState, Implementation, Interface, Module, ParseState, SourceFile, SourceType};
use rewatch::filter::Filter;
use rewatch::watcher::{
    after_event, initial_state, is_in_build_path, is_rescript_file, matches_filter, respond, round,
    CompileType, EventKind, EventResponse, ModifyKind, RoundAction, WatchState,
};

#[test]
fn rescript_files_by_extension() {
    assert!(is_rescript_file("/p/src/App.res"));
    assert!(is_rescript_file("/p/src/App.resi"));
    assert!(is_rescript_file("/p/src/app.ml"));
    assert!(!is_rescript_file("/p/src/App.js"));
    assert!(!is_rescript_file("/p/src/Makefile"));
}

#[test]
fn build_folders_are_ignored() {
    assert!(is_in_build_path(Some("/p/lib/bs/src/App.res")));
    assert!(is_in_build_path(Some("/p/lib/ocaml/App.res")));
    assert!(!is_in_build_path(Some("/p/src/lib/App.res")));
    assert!(!is_in_build_path(None));
}

#[test]
fn filters_exclude_matching_names() {
    let filter = Filter::new("_test").unwrap();
    assert!(!matches_filter("/p/src/App_test.res", &Some(filter)));
    let filter = Filter::new("_test").unwrap();
    assert!(matches_filter("/p/src/App.res", &Some(filter)));
    assert!(matches_filter("/p/src/App.res", &None));
    assert!(Filter::new("(unclosed").is_none());
}

#[test]
fn events_decide_the_next_build() {
    assert_eq!(respond(CompileType::Incremental, EventKind::Create), EventResponse::NeedsFull);
    assert_eq!(respond(CompileType::NoCompile, EventKind::Remove), EventResponse::NeedsFull);
    assert_eq!(respond(CompileType::NoCompile, EventKind::Modify(ModifyKind::Name)), EventResponse::NeedsFull);
    assert_eq!(respond(CompileType::NoCompile, EventKind::Any), EventResponse::NeedsFull);
    assert_eq!(respond(CompileType::NoCompile, EventKind::Modify(ModifyKind::Data)), EventResponse::MarkDirty);
    assert_eq!(respond(CompileType::NoCompile, EventKind::Access), EventResponse::Ignore);
    assert_eq!(respond(CompileType::NoCompile, EventKind::Modify(ModifyKind::Metadata)), EventResponse::Ignore);
    assert_eq!(respond(CompileType::Full, EventKind::Create), EventResponse::Ignore);
    assert_eq!(after_event(CompileType::NoCompile, EventResponse::NeedsFull, false), CompileType::Full);
    assert_eq!(after_event(CompileType::NoCompile, EventResponse::MarkDirty, true), CompileType::Incremental);
    assert_eq!(after_event(CompileType::NoCompile, EventResponse::MarkDirty, false), CompileType::NoCompile);
    assert_eq!(after_event(CompileType::Full, respond(CompileType::Full, EventKind::Modify(ModifyKind::Data)), true), CompileType::Full);
}

#[test]
fn rounds_build_once_then_wait() {
    let start = initial_state();
    assert_eq!(start, WatchState { needs_compile_type: CompileType::Incremental, initial_build: true });
    let (action, next) = round(start);
    assert_eq!(action, RoundAction::IncrementalBuild { initial: true });
    assert_eq!(next, WatchState { needs_compile_type: CompileType::NoCompile, initial_build: false });
    let (action, again) = round(next);
    assert_eq!(action, RoundAction::Wait);
    assert_eq!(again, next);
    let full = WatchState { needs_compile_type: CompileType::Full, initial_build: false };
    assert_eq!(round(full).0, RoundAction::FullBuild { initial: false });
}

#[test]
fn relevant_changes() {
    use_relevant();
}

fn use_relevant() {
    let f = Filter::new("_test").unwrap();
    let filter = Some(f);
    assert!(rewatch::watcher::is_relevant("/p/src/App.res", Some("/p/src/App.res"), &filter));
    assert!(!rewatch::watcher::is_relevant("/p/src/App_test.res", Some("/p/src/App_test.res"), &filter));
    assert!(!rewatch::watcher::is_relevant("/p/lib/bs/App.res", Some("/p/lib/bs/App.res"), &None));
    assert!(rewatch::watcher::is_relevant("/p/lib/bs/App.res", None, &None));
    assert!(!rewatch::watcher::is_relevant("/p/src/App.js", Some("/p/src/App.js"), &None));
}

fn watched_module(imp: &str, iface: Option<&str>) -> Module {
    Module {
        source_type: SourceType::SourceFile(SourceFile {
            implementation: Implementation {
                path: imp.to_string(),
                parse_state: ParseState::Success,
                compile_state: CompileState::Success,
                last_modified: 1,
                parse_dirty: false,
            },
            interface: iface.map(|p| Interface {
                path: p.to_string(),
                parse_state: ParseState::Success,
                compile_state: CompileState::Success,
                last_modified: 1,
                parse_dirty: false,
            }),
            embeds: Vec::new(),
        }),
        deps: ahash::AHashSet::new(),
        dependents: ahash::AHashSet::new(),
        package_name: "pkg".to_string(),
        compile_dirty: false,
        last_compiled_cmi: None,
        last_compiled_cmt: None,
    }
}

#[test]
fn a_changed_file_marks_its_module() {
    let mut modules: ahash::AHashMap<String, Module> = ahash::AHashMap::new();
    modules.insert("A".to_string(), watched_module("src/A.res", Some("src/A.resi")));
    modules.insert("B".to_string(), watched_module("src/B.res", None));
    let packages = vec![("pkg".to_string(), "/p".to_string())];
    let marked = rewatch::watcher::mark_changed_file(&mut modules, &packages, "/p/src/A.resi", Some(9));
    assert_eq!(marked, Some("A".to_string()));
    match &modules["A"].source_type {
        SourceType::SourceFile(sf) => {
            assert!(!sf.implementation.parse_dirty);
            let i = sf.interface.as_ref().unwrap();
            assert!(i.parse_dirty);
            assert_eq!(i.last_modified, 9);
        }
        SourceType::MlMap(_) => panic!("a source module was expected"),
    }
    assert_eq!(
        rewatch::watcher::mark_changed_file(&mut modules, &packages, "/p/src//B.res", None),
        Some("B".to_string())
    );
    assert_eq!(rewatch::watcher::mark_changed_file(&mut modules, &packages, "/p/src/C.res", None), None);
}

#[test]
fn the_after_build_command_runs_after_full_and_good_builds() {
    let cmd = Some("echo done".to_string());
    assert_eq!(
        rewatch::watcher::command_after_build(&cmd, RoundAction::FullBuild { initial: false }, false),
        cmd.clone()
    );
    assert_eq!(
        rewatch::watcher::command_after_build(&cmd, RoundAction::IncrementalBuild { initial: true }, true),
        cmd.clone()
    );
    assert_eq!(rewatch::watcher::command_after_build(&cmd, RoundAction::IncrementalBuild { initial: false }, false), None);
    assert_eq!(rewatch::watcher::command_after_build(&cmd, RoundAction::Wait, true), None);
    assert_eq!(rewatch::watcher::command_after_build(&None, RoundAction::FullBuild { initial: true }, true), None);
}

#[test]
fn a_batch_with_a_new_file_calls_for_a_full_build() {
    let batch = [
        (EventKind::Modify(ModifyKind::Data), true),
        (EventKind::Create, false),
        (EventKind::Modify(ModifyKind::Data), true),
        (EventKind::Access, false),
    ];
    let mut needs = CompileType::NoCompile;
    for (kind, marked) in batch {
        needs = after_event(needs, respond(needs, kind), marked);
    }
    assert_eq!(needs, CompileType::Full);
    let (action, _) = round(WatchState { needs_compile_type: needs, initial_build: false });
    assert_eq!(action, RoundAction::FullBuild { initial: false });
}
