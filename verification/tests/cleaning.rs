use rewatch::build_types::{CompileState, Implementation, Interface, MlMap, Module, ParseState, SourceFile, SourceType};
use rewatch::packages::{register_implementation, register_interface, source_role, SourceRole};
use rewatch::clean::{
    asset_kind, deleted_module_names, failed_to_compile, failed_to_parse, get_res_path_from_ast,
    after_build_removals, last_modified, mark_unchanged, plan_cleanup, source_locations, AssetKind, AstRecord,
};

fn source_module(impl_time: u128, iface_time: Option<u128>) -> Module {
    Module {
        source_type: SourceType::SourceFile(SourceFile {
            implementation: Implementation {
                path: "src/A.res".to_string(),
                parse_state: ParseState::Success,
                compile_state: CompileState::Success,
                last_modified: impl_time,
                parse_dirty: true,
            },
            interface: iface_time.map(|t| Interface {
                path: "src/A.resi".to_string(),
                parse_state: ParseState::Success,
                compile_state: CompileState::Success,
                last_modified: t,
                parse_dirty: true,
            }),
            embeds: Vec::new(),
        }),
        deps: ahash::AHashSet::new(),
        dependents: ahash::AHashSet::new(),
        package_name: "pkg".to_string(),
        compile_dirty: true,
        last_compiled_cmi: None,
        last_compiled_cmt: None,
    }
}

#[test]
fn failures() {
    let mut m = source_module(1, Some(1));
    assert!(!failed_to_parse(&m));
    assert!(!failed_to_compile(&m));
    if let SourceType::SourceFile(sf) = &mut m.source_type {
        sf.interface.as_mut().unwrap().parse_state = ParseState::Warning;
        sf.implementation.compile_state = CompileState::Error;
    }
    assert!(failed_to_parse(&m));
    assert!(failed_to_compile(&m));
    let map = Module {
        source_type: SourceType::MlMap(MlMap { parse_dirty: false }),
        deps: ahash::AHashSet::new(),
        dependents: ahash::AHashSet::new(),
        package_name: "p".to_string(),
        compile_dirty: true,
        last_compiled_cmi: None,
        last_compiled_cmt: None,
    };
    assert!(!failed_to_parse(&map));
    assert!(!failed_to_compile(&map));
    assert_eq!(last_modified(&map), None);
}

#[test]
fn source_path_of_an_ast() {
    let lines: Vec<String> = vec!["\u{0}\u{0}", "Belt", "  /home/p/src/A.res", "/later"]
        .into_iter()
        .map(|s| s.to_string())
        .collect();
    assert_eq!(get_res_path_from_ast(&lines), Some("  /home/p/src/A.res".to_string()));
    let first_only: Vec<String> = vec!["/not/this".to_string(), "Belt".to_string()];
    assert_eq!(get_res_path_from_ast(&first_only), None);
}

#[test]
fn unchanged_modules_are_not_rebuilt() {
    let mut m = source_module(10, Some(20));
    assert_eq!(last_modified(&m), Some(20));
    mark_unchanged(&mut m, Some(30), 25, "lib/ocaml/A.ast", false);
    assert!(!m.compile_dirty);
    if let SourceType::SourceFile(sf) = &m.source_type {
        assert!(!sf.implementation.parse_dirty);
        assert!(sf.interface.as_ref().unwrap().parse_dirty);
    }
    let mut stale = source_module(10, None);
    mark_unchanged(&mut stale, Some(5), 5, "lib/ocaml/A.ast", false);
    assert!(stale.compile_dirty);
    let mut deleted = source_module(10, None);
    mark_unchanged(&mut deleted, Some(30), 30, "lib/ocaml/A.ast", true);
    assert!(deleted.compile_dirty);
    let mut iface = source_module(10, Some(10));
    mark_unchanged(&mut iface, None, 30, "lib/ocaml/A.iast", false);
    assert!(iface.compile_dirty);
    if let SourceType::SourceFile(sf) = &iface.source_type {
        assert!(sf.implementation.parse_dirty);
        assert!(!sf.interface.as_ref().unwrap().parse_dirty);
    }
}

#[test]
fn deleted_modules_mark_their_namespace() {
    let mut all = ahash::AHashSet::new();
    all.insert("Kept".to_string());
    let ast_names = vec!["Kept".to_string(), "Gone".to_string(), "Old-Ns".to_string()];
    let deleted = deleted_module_names(&ast_names, &all);
    assert_eq!(deleted.len(), 2);
    assert!(deleted.contains("Gone"));
    assert!(deleted.contains("Ns"));
}

#[test]
fn asset_kinds() {
    assert_eq!(asset_kind("lib/ocaml/A.ast"), Some(AssetKind::Ast));
    assert_eq!(asset_kind("lib/ocaml/A.iast"), Some(AssetKind::Ast));
    assert_eq!(asset_kind("lib/ocaml/A.cmi"), Some(AssetKind::Cmi));
    assert_eq!(asset_kind("lib/ocaml/A.cmt"), Some(AssetKind::Cmt));
    assert_eq!(asset_kind("lib/ocaml/A.cmj"), None);
}

#[test]
fn path_lines_of_asts() {
    assert!(!rewatch::clean::is_source_path_line(0, "/first"));
    assert!(rewatch::clean::is_source_path_line(1, " \t/a/b.res"));
    assert!(!rewatch::clean::is_source_path_line(2, "Belt"));
}

#[test]
fn registering_source_files() {
    let mut modules: ahash::AHashMap<String, Module> = ahash::AHashMap::new();
    let pkg = "pkg".to_string();
    assert_eq!(source_role("src/A.res"), SourceRole::Implementation);
    assert_eq!(source_role("src/A.resi"), SourceRole::Interface { implementation: "src/A.res".to_string() });
    assert_eq!(register_implementation(&mut modules, "A".to_string(), &"src/A.res".to_string(), 5, &pkg), Ok(()));
    register_interface(&mut modules, "A".to_string(), &"src/A.resi".to_string(), "src/A.res".to_string(), 6, &pkg);
    register_interface(&mut modules, "B".to_string(), &"src/B.resi".to_string(), "src/B.res".to_string(), 7, &pkg);
    assert_eq!(
        register_implementation(&mut modules, "A".to_string(), &"lib/A.res".to_string(), 8, &pkg),
        Err("src/A.res".to_string())
    );
    assert_eq!(register_implementation(&mut modules, "A".to_string(), &"src/A.res".to_string(), 9, &pkg), Ok(()));
    assert_eq!(modules.len(), 2);
    match &modules["A"].source_type {
        SourceType::SourceFile(sf) => {
            assert_eq!(sf.implementation.last_modified, 9);
            assert_eq!(sf.interface.as_ref().unwrap().path, "src/A.resi");
        }
        _ => panic!("not a source file"),
    }
    match &modules["B"].source_type {
        SourceType::SourceFile(sf) => {
            assert_eq!(sf.implementation.path, "src/B.res");
            assert_eq!(sf.implementation.last_modified, 7);
            assert!(modules["B"].compile_dirty);
        }
        _ => panic!("not a source file"),
    }
}

#[test]
fn namespace_maps_of_dirty_packages_are_compiled_again() {
    let mut modules: ahash::AHashMap<String, Module> = ahash::AHashMap::new();
    let mut a = source_module(1, None);
    a.package_name = "p".to_string();
    modules.insert("A".to_string(), a);
    let mut b = source_module(1, None);
    b.package_name = "q".to_string();
    b.compile_dirty = false;
    modules.insert("B".to_string(), b);
    for (name, pkg) in [("NsP", "p"), ("NsQ", "q")] {
        modules.insert(
            name.to_string(),
            Module {
                source_type: SourceType::MlMap(MlMap { parse_dirty: false }),
                deps: ahash::AHashSet::new(),
                dependents: ahash::AHashSet::new(),
                package_name: pkg.to_string(),
                compile_dirty: false,
                last_compiled_cmi: None,
                last_compiled_cmt: None,
            },
        );
    }
    assert_eq!(rewatch::packages::mlmaps_to_compile(&modules), vec!["NsP".to_string()]);
}

fn ast(module_name: &str, ast_path: &str, modified: u128, source_path: &str) -> AstRecord {
    AstRecord {
        module_name: module_name.to_string(),
        ast_path: ast_path.to_string(),
        modified,
        source_path: source_path.to_string(),
    }
}

#[test]
fn cleanup_plan_of_a_previous_build() {
    let mut modules: ahash::AHashMap<String, Module> = ahash::AHashMap::new();
    modules.insert("A".to_string(), source_module(10, Some(10)));
    let current = vec!["/p/src/A.res".to_string(), "/p/src/A.resi".to_string()];
    let asts = vec![
        ast("A", "/p/lib/bs/src/A.ast", 20, "/p/src/A.res"),
        ast("A", "/p/lib/bs/src/A.iast", 5, "/p/src/A.resi"),
        ast("B-Ns", "/p/lib/bs/src/B.ast", 20, "/p/src/B.res"),
        ast("C", "/p/lib/bs/src/C.iast", 20, "/p/src/C.resi"),
        ast("C", "/p/lib/bs/src/C2.iast", 30, "/p/src/C.resi"),
    ];
    let cmis = vec![("A".to_string(), 5), ("A".to_string(), 30)];
    let plan = plan_cleanup(&mut modules, &current, &asts, &cmis);
    assert_eq!(plan.total, 4);
    assert_eq!(plan.stale_count, 2);
    assert_eq!(plan.stale, vec![2, 4]);
    let mut deleted: Vec<String> = plan.deleted.iter().cloned().collect();
    deleted.sort();
    assert_eq!(deleted, vec!["Ns".to_string()]);
    let a = &modules["A"];
    assert!(!a.compile_dirty);
    match &a.source_type {
        SourceType::SourceFile(sf) => {
            assert!(!sf.implementation.parse_dirty);
            assert!(sf.interface.as_ref().unwrap().parse_dirty);
        }
        SourceType::MlMap(_) => panic!("a source module was expected"),
    }
}

#[test]
fn source_locations_of_the_build() {
    let mut modules: ahash::AHashMap<String, Module> = ahash::AHashMap::new();
    modules.insert("A".to_string(), source_module(1, Some(1)));
    let packages = vec![("pkg".to_string(), "/p".to_string())];
    let mut found = source_locations(&modules, &packages);
    found.sort();
    assert_eq!(found, vec!["/p/src/A.res".to_string(), "/p/src/A.resi".to_string()]);
}

#[test]
fn failed_modules_lose_their_output_after_a_build() {
    let mut modules: ahash::AHashMap<String, Module> = ahash::AHashMap::new();
    let mut broken = source_module(1, None);
    if let SourceType::SourceFile(sf) = &mut broken.source_type {
        sf.implementation.parse_state = ParseState::ParseError;
        sf.implementation.compile_state = CompileState::Warning;
    }
    modules.insert("A".to_string(), broken);
    let packages = vec![("pkg".to_string(), rewatch::packages::Namespace::Namespace("Ns".to_string()))];
    let mut removed = after_build_removals(&modules, &packages, "/r");
    removed.sort();
    let base = "/r/node_modules/pkg/lib/ocaml/";
    let mut expected: Vec<String> = ["A.ast", "A.iast", "A-Ns.cmi", "A-Ns.cmj", "A-Ns.cmt", "A-Ns.cmti"]
        .iter()
        .map(|f| format!("{}{}", base, f))
        .collect();
    expected.sort();
    assert_eq!(removed, expected);
    modules.insert("A".to_string(), source_module(1, None));
    assert!(after_build_removals(&modules, &packages, "/r").is_empty());
}
