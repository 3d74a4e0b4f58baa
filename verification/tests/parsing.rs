use rewatch::build_types::{CompileState, Implementation, Interface, MlMap, Module, ParseState, SourceFile, SourceType};
use rewatch::config::{Config, JsxSpecs, OneOrMore};
use rewatch::parse::{
    apply_ast_results, ast_result, filter_ppx_flags, include_ppx, is_embed_dirty, is_mlmap_changed,
    parser_args, path_to_ast_extension, parse_jobs, parse_outcome, ParseJob, ParseReport,
};

fn implementation() -> Implementation {
    Implementation {
        path: "src/A.res".to_string(),
        parse_state: ParseState::Pending,
        compile_state: CompileState::Pending,
        last_modified: 10,
        parse_dirty: true,
    }
}

fn interface() -> Interface {
    Interface {
        path: "src/A.resi".to_string(),
        parse_state: ParseState::Pending,
        compile_state: CompileState::Pending,
        last_modified: 10,
        parse_dirty: true,
    }
}

#[test]
fn clean_parse_clears_both_files() {
    let mut sf = SourceFile { implementation: implementation(), interface: Some(interface()), embeds: Vec::new() };
    let report = apply_ast_results(
        &mut sf,
        &Ok(("A.ast".to_string(), None)),
        &Ok(Some(("A.iast".to_string(), None))),
        false,
    );
    assert!(report.ok);
    assert!(report.messages.is_empty());
    assert_eq!(sf.implementation.parse_state, ParseState::Success);
    assert!(!sf.implementation.parse_dirty);
    let i = sf.interface.unwrap();
    assert_eq!(i.parse_state, ParseState::Success);
    assert!(!i.parse_dirty);
}

#[test]
fn pinned_warnings_are_kept_and_repeated() {
    let mut sf = SourceFile { implementation: implementation(), interface: None, embeds: Vec::new() };
    let report = apply_ast_results(&mut sf, &Ok(("A.ast".to_string(), Some("warn".to_string()))), &Ok(None), true);
    assert!(report.ok);
    assert_eq!(report.messages, vec!["warn".to_string()]);
    assert_eq!(sf.implementation.parse_state, ParseState::Warning);
    assert!(sf.implementation.parse_dirty);
    let mut other = SourceFile { implementation: implementation(), interface: None, embeds: Vec::new() };
    let report = apply_ast_results(&mut other, &Ok(("A.ast".to_string(), Some("warn".to_string()))), &Ok(None), false);
    assert!(report.messages.is_empty());
    assert_eq!(other.implementation.parse_state, ParseState::Success);
}

#[test]
fn parse_errors_fail_and_are_reported() {
    let mut sf = SourceFile { implementation: implementation(), interface: Some(interface()), embeds: Vec::new() };
    let report = apply_ast_results(&mut sf, &Err("boom".to_string()), &Err("bang".to_string()), false);
    assert!(!report.ok);
    assert_eq!(report.messages, vec!["boom".to_string(), "bang".to_string()]);
    assert_eq!(sf.implementation.parse_state, ParseState::ParseError);
    assert_eq!(sf.interface.unwrap().parse_state, ParseState::ParseError);
}

#[test]
fn ppx_selection() {
    assert!(include_ppx("my-bisect-ppx", "", true));
    assert!(!include_ppx("my-bisect-ppx", "", false));
    assert!(!include_ppx("graphql-ppx/ppx", "let x = 1", false));
    assert!(include_ppx("graphql-ppx/ppx", "%graphql(`query`)", false));
    assert!(!include_ppx("@greenlabs/spice", "", false));
    assert!(include_ppx("@greenlabs/spice", "@spice type t", false));
    assert!(!include_ppx("rescript-relay/ppx", "", false));
    assert!(!include_ppx("re-formality/ppx", "", false));
    assert!(include_ppx("other-ppx", "", false));
    let flags = Some(vec![
        OneOrMore::Single("graphql-ppx/ppx".to_string()),
        OneOrMore::Multiple(vec!["other-ppx".to_string(), "-x".to_string()]),
    ]);
    match filter_ppx_flags(&flags, "nothing", false) {
        Some(kept) => {
            assert_eq!(kept.len(), 1);
            match &kept[0] {
                OneOrMore::Multiple(v) => assert_eq!(v, &vec!["other-ppx".to_string(), "-x".to_string()]),
                _ => panic!("wrong entry"),
            }
        }
        None => panic!("flags were given"),
    }
    assert!(filter_ppx_flags(&None, "", false).is_none());
}

#[test]
fn ast_extensions_and_outcomes() {
    assert_eq!(path_to_ast_extension("src/A.res"), ".ast");
    assert_eq!(path_to_ast_extension("src/A.resi"), ".ast");
    assert_eq!(ast_result("A.ast".to_string(), "pkg", "", true), Ok(("A.ast".to_string(), None)));
    assert_eq!(ast_result("A.ast".to_string(), "pkg", " \n", false), Ok(("A.ast".to_string(), None)));
    assert_eq!(
        ast_result("A.ast".to_string(), "pkg", "Warning 3", true),
        Ok(("A.ast".to_string(), Some("Warning 3".to_string())))
    );
    assert_eq!(ast_result("A.ast".to_string(), "pkg", "Syntax error", false), Err("Error in pkg:\nSyntax error".to_string()));
}

#[test]
fn embeds_are_regenerated_when_their_hash_changes() {
    assert!(is_embed_dirty(None, "abc"));
    assert!(is_embed_dirty(Some("let x = 1"), "abc"));
    assert!(!is_embed_dirty(Some("// HASH: abc\nlet x = 1"), "abc"));
    assert!(!is_embed_dirty(Some("// HASH: abc\r\nlet x = 1"), "abc"));
    assert!(is_embed_dirty(Some("// HASH: abd\nlet x = 1"), "abc"));
    assert!(!is_embed_dirty(Some("// HASH: // HASH: abc"), "abc"));
    assert!(is_embed_dirty(Some(""), ""));
}

#[test]
fn namespace_maps_change_with_their_digest() {
    assert!(!is_mlmap_changed(&Some(vec![1, 2]), &Some(vec![1, 2])));
    assert!(is_mlmap_changed(&Some(vec![1, 2]), &Some(vec![1, 3])));
    assert!(is_mlmap_changed(&None, &Some(vec![1])));
}

fn config(name: &str) -> Config {
    Config {
        name: name.to_string(),
        sources: None,
        package_specs: None,
        warnings: None,
        suffix: None,
        pinned_dependencies: None,
        bs_dependencies: None,
        bs_dev_dependencies: None,
        ppx_flags: None,
        bsc_flags: None,
        reason: None,
        namespace: None,
        jsx: None,
        uncurried: None,
        gentype_config: None,
        namespace_entry: None,
        allowed_dependents: None,
    }
}

#[test]
fn parser_arguments_in_order() {
    let mut c = config("pkg");
    c.ppx_flags = Some(vec![OneOrMore::Single("my-ppx".to_string()), OneOrMore::Single("graphql-ppx".to_string())]);
    c.bsc_flags = Some(vec![OneOrMore::Single("-open Belt".to_string())]);
    let mut root = config("root");
    root.jsx = Some(JsxSpecs { version: Some(4), module: None, mode: None, v3_dependencies: None });
    let (ast, args) = parser_args(
        &c,
        &root,
        "src/App.res",
        "11.0.0",
        &None,
        "/r",
        "let x = 1",
        false,
        &vec!["-embed".to_string()],
    );
    assert_eq!(ast, "App.ast");
    assert_eq!(
        args,
        vec![
            "-bs-v", "11.0.0", "-ppx", "/r/node_modules/my-ppx", "-bs-jsx", "4", "-uncurried", "-open",
            "Belt", "-absname", "-bs-ast", "-o", "App.ast", "../../src/App.res", "-embed",
        ]
    );
    let (_, args) = parser_args(&c, &config("root"), "src/App.res", "10.1.0", &Some("/w".to_string()), "/r", "", false, &vec![]);
    assert_eq!(args[2..4].to_vec(), vec!["-ppx".to_string(), "/w/node_modules/my-ppx".to_string()]);
}

#[test]
fn parse_outcomes_are_recorded_in_the_build() {
    let mut modules: ahash::AHashMap<String, Module> = ahash::AHashMap::new();
    modules.insert(
        "A".to_string(),
        Module {
            source_type: SourceType::SourceFile(SourceFile { implementation: implementation(), interface: None, embeds: Vec::new() }),
            deps: ahash::AHashSet::new(),
            dependents: ahash::AHashSet::new(),
            package_name: "pkg".to_string(),
            compile_dirty: false,
            last_compiled_cmi: None,
            last_compiled_cmt: None,
        },
    );
    let report = rewatch::parse::record_ast_results(
        &mut modules,
        &"A".to_string(),
        &Ok(("A.ast".to_string(), None)),
        &Ok(None),
        true,
        false,
    );
    assert!(report.ok);
    assert!(modules["A"].compile_dirty);
    match &modules["A"].source_type {
        SourceType::SourceFile(sf) => assert_eq!(sf.implementation.parse_state, ParseState::Success),
        _ => panic!("not a source file"),
    }
    let missing = rewatch::parse::record_ast_results(&mut modules, &"B".to_string(), &Ok(("B.ast".to_string(), None)), &Ok(None), true, false);
    assert!(!missing.ok);
    assert_eq!(modules.len(), 1);
}

#[test]
fn parse_jobs_follow_dirty_files() {
    let module = |dirty: bool, iface: bool| Module {
        source_type: SourceType::SourceFile(SourceFile {
            implementation: Implementation {
                path: "src/A.res".to_string(),
                parse_state: ParseState::Success,
                compile_state: CompileState::Success,
                last_modified: 1,
                parse_dirty: dirty,
            },
            interface: if iface {
                Some(Interface {
                    path: "src/A.resi".to_string(),
                    parse_state: ParseState::Success,
                    compile_state: CompileState::Success,
                    last_modified: 1,
                    parse_dirty: false,
                })
            } else {
                None
            },
            embeds: Vec::new(),
        }),
        deps: ahash::AHashSet::new(),
        dependents: ahash::AHashSet::new(),
        package_name: "pkg".to_string(),
        compile_dirty: false,
        last_compiled_cmi: None,
        last_compiled_cmt: None,
    };
    let mut modules: ahash::AHashMap<String, Module> = ahash::AHashMap::new();
    modules.insert("A".to_string(), module(false, true));
    let jobs = parse_jobs(&modules);
    assert_eq!(jobs.len(), 1);
    match &jobs[0] {
        ParseJob::Keep { module_name, ast, iast } => {
            assert_eq!(module_name, "A");
            assert_eq!(ast, "A.ast");
            assert_eq!(iast.as_deref(), Some("A.iast"));
        }
        other => panic!("{:?}", other),
    }
    modules.insert("A".to_string(), module(true, false));
    match &parse_jobs(&modules)[0] {
        ParseJob::Parse { module_name, implementation, interface } => {
            assert_eq!(module_name, "A");
            assert_eq!(implementation, "src/A.res");
            assert!(interface.is_none());
        }
        other => panic!("{:?}", other),
    }
    modules.insert(
        "Ns".to_string(),
        Module {
            source_type: SourceType::MlMap(MlMap { parse_dirty: false }),
            deps: ahash::AHashSet::new(),
            dependents: ahash::AHashSet::new(),
            package_name: "pkg".to_string(),
            compile_dirty: false,
            last_compiled_cmi: None,
            last_compiled_cmt: None,
        },
    );
    let jobs = parse_jobs(&modules);
    assert_eq!(jobs.len(), 2);
    assert!(jobs.iter().any(|j| matches!(j, ParseJob::NamespaceMap { module_name } if module_name == "Ns")));
}

#[test]
fn parse_outcome_gathers_the_output() {
    let report = |failed: bool, messages: &[&str]| ParseReport {
        ok: !failed,
        failed,
        messages: messages.iter().map(|m| m.to_string()).collect(),
    };
    let good = vec![report(false, &["warning 1\n"]), report(false, &[])];
    assert_eq!(parse_outcome(&good), Ok("warning 1\n".to_string()));
    let bad = vec![report(false, &["w\n"]), report(true, &["error A\n", "error B\n"])];
    assert_eq!(parse_outcome(&bad), Err("w\nerror A\nerror B\n".to_string()));
}
