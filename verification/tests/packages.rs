use rewatch::bsconfig;
use rewatch::config::{Config, NamespaceConfig, OneOrMore, PackageSource, Source, Subdirs};
use rewatch::filter::Filter;
use rewatch::packages::{
    get_source_dirs, get_source_folders, matches_filter, namespace_from_package_name,
    package_namespace, source_read_plan, Namespace,
};
use rewatch::structure::{print_rec, Structure};

fn folder(dir: &str, subdirs: Option<Subdirs>, type_: Option<&str>) -> PackageSource {
    PackageSource { dir: dir.to_string(), subdirs, type_: type_.map(|t| t.to_string()) }
}

#[test]
fn source_dirs_are_flattened() {
    let tree = Source::Qualified(folder(
        "src",
        Some(Subdirs::Qualified(vec![
            Source::Shorthand("a".to_string()),
            Source::Qualified(folder("b", Some(Subdirs::Recurse(true)), Some("dev"))),
            Source::Qualified(folder("c", Some(Subdirs::Qualified(vec![Source::Shorthand("d".to_string())])), None)),
        ])),
        None,
    ));
    let dirs = get_source_dirs(&tree, None);
    assert_eq!(dirs.len(), 5);
    assert!(dirs.contains(&folder("src", None, None)));
    assert!(dirs.contains(&folder("src/a", None, None)));
    assert!(dirs.contains(&folder("src/b", Some(Subdirs::Recurse(true)), Some("dev"))));
    assert!(dirs.contains(&folder("src/c", None, None)));
    assert!(dirs.contains(&folder("src/c/d", None, None)));
}

#[test]
fn recursive_sources_keep_their_children_unlisted() {
    let tree = Source::Qualified(folder("src", Some(Subdirs::Recurse(true)), None));
    let dirs = get_source_dirs(&tree, Some("pkg".to_string()));
    assert_eq!(dirs.len(), 1);
    assert!(dirs.contains(&folder("pkg/src", Some(Subdirs::Recurse(true)), None)));
    let all = get_source_folders(&OneOrMore::Multiple(vec![
        Source::Shorthand("src".to_string()),
        Source::Shorthand("src".to_string()),
        Source::Shorthand("test".to_string()),
    ]));
    assert_eq!(all.len(), 2);
}

#[test]
fn package_namespaces() {
    assert_eq!(namespace_from_package_name("@teamwalnut/app"), "TeamwalnutApp");
    let mut c = Config {
        name: "@teamwalnut/app".to_string(),
        sources: None,
        package_specs: None,
        warnings: None,
        suffix: None,
        pinned_dependencies: None,
        bs_dependencies: None,
        bs_dev_dependencies: None,
        ppx_flags: None,
        bsc_flags: None,
        reason: None,
        namespace: Some(NamespaceConfig::Bool(true)),
        jsx: None,
        uncurried: None,
        gentype_config: None,
        namespace_entry: None,
        allowed_dependents: None,
    };
    match package_namespace(&c) {
        Namespace::Namespace(n) => assert_eq!(n, "TeamwalnutApp"),
        other => panic!("{:?}", other),
    }
    c.namespace = Some(NamespaceConfig::String("my-ns".to_string()));
    c.namespace_entry = Some("Main".to_string());
    match package_namespace(&c) {
        Namespace::NamespaceWithEntry { namespace, entry } => {
            assert_eq!(namespace, "MyNs");
            assert_eq!(entry, "Main");
        }
        other => panic!("{:?}", other),
    }
    assert_eq!(Namespace::NamespaceWithEntry { namespace: "Ns".to_string(), entry: "E".to_string() }.to_suffix(), Some("@Ns".to_string()));
    assert_eq!(Namespace::Namespace("Ns".to_string()).to_suffix(), Some("Ns".to_string()));
    assert_eq!(Namespace::NoNamespace.to_suffix(), None);
}

#[test]
fn package_filters_keep_matching_files() {
    let f = Filter::new("^App").unwrap();
    assert!(matches_filter(&Some(f), "App.res"));
    let f = Filter::new("^App").unwrap();
    assert!(!matches_filter(&Some(f), "Lib.res"));
    assert!(matches_filter(&None, "Lib.res"));
}

#[test]
fn older_configuration_flags() {
    let flags = Some(vec![
        OneOrMore::Single("ppx-a".to_string()),
        OneOrMore::Multiple(vec!["./ppx-b".to_string(), "-x".to_string()]),
    ]);
    assert_eq!(
        bsconfig::flatten_ppx_flags(&"/nm".to_string(), &flags),
        vec!["-ppx", "/nm/ppx-a", "-ppx", "/nm/./ppx-b -x"]
    );
    assert_eq!(bsconfig::flatten_flags(&Some(vec![OneOrMore::Single("-a -b".to_string())])), vec!["-a", "-b"]);
    let s = Source::Qualified(folder("src", Some(Subdirs::Qualified(vec![])), Some("dev")));
    assert_eq!(bsconfig::to_qualified_without_children(&s), folder("src", None, Some("dev")));
}

#[test]
fn printed_structure() {
    let tree = Structure::Dir(
        "root".to_string(),
        Box::new(vec![
            Structure::File("a.res".to_string()),
            Structure::Dir("sub".to_string(), Box::new(vec![Structure::File("b.res".to_string())])),
        ]),
    );
    assert_eq!(print_rec(&tree, 0), "root\n-a.res\n-sub\n--b.res");
    assert_eq!(tree.to_text(), "root\n-a.res\n-sub\n--b.res");
}

#[test]
fn reading_plans_for_source_folders() {
    assert_eq!(source_read_plan(&folder("src", Some(Subdirs::Recurse(true)), None)), Some(("src".to_string(), true)));
    assert_eq!(source_read_plan(&folder("src", None, None)), Some(("src".to_string(), false)));
    assert_eq!(source_read_plan(&folder("test", Some(Subdirs::Recurse(true)), Some("dev"))), None);
}

fn file(path: &str, t: u128) -> rewatch::packages::PackageFile {
    rewatch::packages::PackageFile { path: path.to_string(), last_modified: t }
}

fn implementation_path_of(m: &rewatch::build_types::Module) -> (String, u128, bool) {
    match &m.source_type {
        rewatch::build_types::SourceType::SourceFile(sf) => {
            (sf.implementation.path.clone(), sf.implementation.last_modified, sf.implementation.parse_dirty)
        }
        rewatch::build_types::SourceType::MlMap(_) => panic!("a source module was expected"),
    }
}

#[test]
fn registers_the_files_of_a_package() {
    let mut modules: ahash::AHashMap<String, rewatch::build_types::Module> = ahash::AHashMap::new();
    let mut names: ahash::AHashSet<String> = ahash::AHashSet::new();
    let pkg = rewatch::packages::PackageFiles {
        name: "pkg".to_string(),
        namespace: Namespace::NoNamespace,
        files: vec![file("src/B.resi", 3), file("src/A.res", 1), file("src/B.res", 2), file("src/C.resi", 4)],
        modules: vec!["A".to_string(), "B".to_string()],
    };
    assert_eq!(rewatch::packages::find_clash(&modules, &pkg), None);
    rewatch::packages::register_package(&mut modules, &mut names, &pkg);
    assert_eq!(modules.len(), 2);
    assert!(names.contains("A") && names.contains("B"));
    assert_eq!(implementation_path_of(&modules["A"]), ("src/A.res".to_string(), 1, true));
    assert_eq!(implementation_path_of(&modules["B"]), ("src/B.res".to_string(), 2, true));
    match &modules["B"].source_type {
        rewatch::build_types::SourceType::SourceFile(sf) => {
            let i = sf.interface.as_ref().unwrap();
            assert_eq!((i.path.as_str(), i.last_modified, i.parse_dirty), ("src/B.resi", 3, true));
        }
        rewatch::build_types::SourceType::MlMap(_) => panic!("a source module was expected"),
    }
    assert!(!modules.contains_key("C"));
}

#[test]
fn refuses_two_implementations_of_one_module() {
    let mut modules: ahash::AHashMap<String, rewatch::build_types::Module> = ahash::AHashMap::new();
    let mut names: ahash::AHashSet<String> = ahash::AHashSet::new();
    let pkg = rewatch::packages::PackageFiles {
        name: "pkg".to_string(),
        namespace: Namespace::NoNamespace,
        files: vec![file("src/A.res", 1), file("lib/A.res", 2)],
        modules: vec![],
    };
    assert_eq!(rewatch::packages::find_clash(&modules, &pkg), Some("src/A.res".to_string()));
    let first = rewatch::packages::PackageFiles {
        name: "first".to_string(),
        namespace: Namespace::NoNamespace,
        files: vec![file("src/B.res", 1)],
        modules: vec![],
    };
    rewatch::packages::register_package(&mut modules, &mut names, &first);
    let second = rewatch::packages::PackageFiles {
        name: "second".to_string(),
        namespace: Namespace::NoNamespace,
        files: vec![file("other/B.res", 1)],
        modules: vec![],
    };
    assert_eq!(rewatch::packages::find_clash(&modules, &second), Some("other/B.res".to_string()));
}

#[test]
fn dependencies_still_to_read() {
    let mut c = Config {
        name: "root".to_string(),
        sources: None,
        package_specs: None,
        warnings: None,
        suffix: None,
        pinned_dependencies: Some(vec!["@scope/b".to_string()]),
        bs_dependencies: Some(vec!["a".to_string(), "@scope/b".to_string(), "c".to_string()]),
        bs_dev_dependencies: None,
        ppx_flags: None,
        bsc_flags: None,
        reason: None,
        namespace: None,
        jsx: None,
        uncurried: None,
        gentype_config: None,
        namespace_entry: None,
        allowed_dependents: None,
    };
    let known = vec!["root".to_string(), "c".to_string()];
    assert_eq!(
        rewatch::packages::dependencies_to_read(&c, &known),
        vec![("a".to_string(), false), ("@scope/b".to_string(), true)]
    );
    c.bs_dependencies = None;
    assert!(rewatch::packages::dependencies_to_read(&c, &known).is_empty());
}

#[test]
fn modules_of_a_package() {
    let files = vec!["src/App.res".to_string(), "src/util/helper.res".to_string()];
    assert_eq!(
        rewatch::packages::package_modules(&files, &Namespace::NoNamespace),
        vec!["App".to_string(), "Helper".to_string()]
    );
    assert_eq!(
        rewatch::packages::package_modules(&files, &Namespace::Namespace("Ns".to_string())),
        vec!["App-Ns".to_string(), "Helper-Ns".to_string(), "Ns".to_string()]
    );
}
