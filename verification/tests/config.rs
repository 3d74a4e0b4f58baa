use rewatch::config::{
    check_if_rescript11_or_higher, Config, GenTypeConfig, JsxModule, JsxSpecs, NamespaceConfig,
    OneOrMore, PackageSource, PackageSpec, Reason, Source, Subdirs, Warnings,
};
use rewatch::config::Error as WarningError;
use rewatch::packages::Namespace;

fn config(name: &str) -> Config {
    Config {
        name: name.to_string(),
        sources: None,
        package_specs: None,
        warnings: None,
        suffix: None,
        pinned_dependencies: None,
        bs_dependencies: None,
        bs_dev_dependencies: None,
        ppx_flags: None,
        bsc_flags: None,
        reason: None,
        namespace: None,
        jsx: None,
        uncurried: None,
        gentype_config: None,
        namespace_entry: None,
        allowed_dependents: None,
    }
}

/// The package specs, dev dependencies and warnings that the core library's
/// configuration sets.
fn core_library(c: &mut Config) {
    c.package_specs = Some(OneOrMore::Single(PackageSpec {
        module: "esmodule".to_string(),
        in_source: true,
        suffix: None,
    }));
    c.bs_dev_dependencies = Some(vec!["@rescript/tools".to_string()]);
    c.warnings = Some(Warnings { number: None, error: Some(WarningError::Qualified("+101".to_string())) });
}

fn monorepo() -> Config {
    let mut c = config("my-monorepo");
    c.sources = Some(OneOrMore::Multiple(vec![Source::Qualified(PackageSource {
        dir: "src/".to_string(),
        subdirs: Some(Subdirs::Recurse(true)),
        type_: None,
    })]));
    c.package_specs = Some(OneOrMore::Multiple(vec![PackageSpec {
        module: "es6".to_string(),
        in_source: true,
        suffix: None,
    }]));
    c.suffix = Some(".mjs".to_string());
    c.pinned_dependencies = Some(vec!["@teamwalnut/app".to_string()]);
    c.bs_dependencies = Some(vec!["@teamwalnut/app".to_string()]);
    c
}

#[test]
fn test_getters() {
    let config = monorepo();
    let specs = config.get_package_specs();
    assert_eq!(specs.len(), 1);
    let spec = specs.first().unwrap();
    assert_eq!(spec.module, "es6");
    assert_eq!(config.get_suffix(spec), ".mjs");
}

#[test]
fn test_sources() {
    let mut config = config("@rescript/core");
    config.sources = Some(OneOrMore::Single(Source::Qualified(PackageSource {
        dir: "test".to_string(),
        subdirs: Some(Subdirs::Qualified(vec![Source::Shorthand("intl".to_string())])),
        type_: Some("dev".to_string()),
    })));
    config.suffix = Some(".mjs".to_string());
    core_library(&mut config);
    if let Some(OneOrMore::Single(source)) = config.sources {
        let source = source.to_qualified_without_children(None);
        assert_eq!(source.type_, Some(String::from("dev")));
    } else {
        unreachable!()
    }
}

#[test]
fn test_dev_sources_multiple() {
    let mut config = config("@rescript/core");
    config.sources = Some(OneOrMore::Multiple(vec![
        Source::Qualified(PackageSource { dir: "src".to_string(), subdirs: None, type_: None }),
        Source::Qualified(PackageSource {
            dir: "test".to_string(),
            subdirs: None,
            type_: Some("dev".to_string()),
        }),
    ]));
    config.suffix = Some(".mjs".to_string());
    core_library(&mut config);
    if let Some(OneOrMore::Multiple(sources)) = config.sources {
        assert_eq!(sources.len(), 2);
        let test_dir = sources[1].to_qualified_without_children(None);
        assert_eq!(test_dir.type_, Some(String::from("dev")));
    } else {
        unreachable!()
    }
}

#[test]
fn test_detect_gentypeconfig() {
    let mut config = monorepo();
    config.gentype_config = Some(GenTypeConfig {
        json: "{\"module\":\"esmodule\",\"generatedFileExtension\":\".gen.tsx\"}".to_string(),
    });
    assert!(config.gentype_config.is_some());
    assert_eq!(config.get_gentype_arg(), vec!["-bs-gentype".to_string()]);
}

#[test]
fn test_other_jsx_module() {
    let mut config = monorepo();
    config.jsx = Some(JsxSpecs {
        version: None,
        module: Some(JsxModule::Other(String::from("Voby.JSX"))),
        mode: None,
        v3_dependencies: None,
    });
    assert!(config.jsx.is_some());
    assert_eq!(config.get_jsx_module_args(), vec!["-bs-jsx-module".to_string(), "Voby.JSX".to_string()]);
    assert_eq!(config.get_jsx_mode_args(), Vec::<String>::new());
    assert_eq!(
        config.jsx.unwrap(),
        JsxSpecs {
            version: None,
            module: Some(JsxModule::Other(String::from("Voby.JSX"))),
            mode: None,
            v3_dependencies: None,
        },
    );
}

#[test]
fn test_get_suffix() {
    let mut config = config("testrepo");
    config.sources = Some(OneOrMore::Single(Source::Qualified(PackageSource {
        dir: "src".to_string(),
        subdirs: Some(Subdirs::Recurse(true)),
        type_: None,
    })));
    config.package_specs = Some(OneOrMore::Multiple(vec![PackageSpec {
        module: "es6".to_string(),
        in_source: true,
        suffix: None,
    }]));
    config.suffix = Some(".mjs".to_string());
    assert_eq!(config.get_suffix(&config.get_package_specs().first().unwrap()), ".mjs");
}

#[test]
fn test_check_if_rescript11_or_higher() {
    assert_eq!(check_if_rescript11_or_higher("11.0.0"), Ok(true));
    assert_eq!(check_if_rescript11_or_higher("11.0.1"), Ok(true));
    assert_eq!(check_if_rescript11_or_higher("11.1.0"), Ok(true));

    assert_eq!(check_if_rescript11_or_higher("12.0.0"), Ok(true));

    assert_eq!(check_if_rescript11_or_higher("10.0.0"), Ok(false));
    assert_eq!(check_if_rescript11_or_higher("9.0.0"), Ok(false));
}

#[test]
fn test_check_if_rescript11_or_higher_misc() {
    assert_eq!(check_if_rescript11_or_higher("11"), Ok(true));
    assert_eq!(check_if_rescript11_or_higher("12.0.0-alpha.4"), Ok(true));

    match check_if_rescript11_or_higher("*") {
        Ok(_) => unreachable!("Should not parse"),
        Err(_) => assert!(true),
    }
}

#[test]
fn package_specs_default_to_commonjs_in_source() {
    let c = config("plain");
    let specs = c.get_package_specs();
    assert_eq!(specs.len(), 1);
    assert_eq!(specs[0].module, "commonjs");
    assert!(specs[0].in_source);
    assert_eq!(c.get_suffix(&specs[0]), ".js");
    assert_eq!(specs[0].get_out_of_source_dir(), "js");
    assert!(specs[0].is_common_js());
}

#[test]
fn suffix_prefers_the_spec_then_the_config() {
    let mut c = config("plain");
    c.suffix = Some(".mjs".to_string());
    let spec = PackageSpec { module: "es6".to_string(), in_source: false, suffix: Some(".bs.js".to_string()) };
    assert_eq!(c.get_suffix(&spec), ".bs.js");
    assert_eq!(spec.get_out_of_source_dir(), "es6");
    let plain = PackageSpec { module: "es6".to_string(), in_source: false, suffix: None };
    assert_eq!(c.get_suffix(&plain), ".mjs");
}

#[test]
fn namespace_from_scoped_package_name() {
    assert_eq!(rewatch::config::namespace_from_package_name("@teamwalnut/app"), "TeamwalnutApp");
    assert_eq!(rewatch::config::namespace_from_package_name("my-lib_2"), "MyLib_2");
    assert_eq!(rewatch::config::namespace_from_package_name(""), "");
}

#[test]
fn namespace_settings() {
    let mut c = config("@teamwalnut/app");
    assert!(matches!(c.get_namespace(), Namespace::NoNamespace));
    c.namespace = Some(NamespaceConfig::Bool(true));
    match c.get_namespace() {
        Namespace::Namespace(n) => assert_eq!(n, "TeamwalnutApp"),
        other => panic!("{:?}", other),
    }
    c.namespace = Some(NamespaceConfig::String("MYNS".to_string()));
    c.namespace_entry = Some("Entry".to_string());
    match c.get_namespace() {
        Namespace::NamespaceWithEntry { namespace, entry } => {
            assert_eq!(namespace, "MYNS");
            assert_eq!(entry, "Entry");
        }
        other => panic!("{:?}", other),
    }
    c.namespace = Some(NamespaceConfig::String("my-namespace".to_string()));
    c.namespace_entry = None;
    match c.get_namespace() {
        Namespace::Namespace(n) => assert_eq!(n, "MyNamespace"),
        other => panic!("{:?}", other),
    }
    c.namespace = Some(NamespaceConfig::Bool(false));
    assert!(matches!(c.get_namespace(), Namespace::NoNamespace));
}

#[test]
fn jsx_and_uncurried_arguments() {
    let mut c = config("app");
    assert!(c.get_jsx_args().is_empty());
    c.reason = Some(Reason::Versioned { react_jsx: 3 });
    assert_eq!(c.get_jsx_args(), vec!["-bs-jsx".to_string(), "3".to_string()]);
    c.jsx = Some(JsxSpecs {
        version: Some(4),
        module: Some(JsxModule::React),
        mode: Some(rewatch::config::JsxMode::Automatic),
        v3_dependencies: None,
    });
    assert_eq!(c.get_jsx_args(), vec!["-bs-jsx".to_string(), "4".to_string()]);
    assert_eq!(c.get_jsx_module_args(), vec!["-bs-jsx-module".to_string(), "react".to_string()]);
    assert_eq!(c.get_jsx_mode_args(), vec!["-bs-jsx-mode".to_string(), "automatic".to_string()]);
    assert_eq!(c.get_uncurried_args("11.0.0"), vec!["-uncurried".to_string()]);
    assert!(c.get_uncurried_args("10.1.0").is_empty());
    assert!(c.get_uncurried_args("next").is_empty());
    c.uncurried = Some(false);
    assert!(c.get_uncurried_args("11.0.0").is_empty());
}

#[test]
fn flags_are_split_at_spaces() {
    let flags = Some(vec![
        OneOrMore::Single("-bs-super-errors -w a".to_string()),
        OneOrMore::Multiple(vec!["-open".to_string(), "Belt".to_string()]),
    ]);
    assert_eq!(
        rewatch::config::flatten_flags(&flags),
        vec!["-bs-super-errors", "-w", "a", "-open", "Belt"]
    );
    assert!(rewatch::config::flatten_flags(&None).is_empty());
}

#[test]
fn ppx_flags_resolve_under_node_modules() {
    let flags = Some(vec![
        OneOrMore::Single("ppx-a/ppx".to_string()),
        OneOrMore::Multiple(vec!["./ppx-b".to_string(), "-x".to_string(), "1".to_string()]),
        OneOrMore::Multiple(vec![]),
    ]);
    let out = rewatch::config::flatten_ppx_flags(
        &"/root/node_modules".to_string(),
        &flags,
        &"pkg".to_string(),
    );
    assert_eq!(
        out,
        vec![
            "-ppx",
            "/root/node_modules/ppx-a/ppx",
            "-ppx",
            "/root/node_modules/pkg/./ppx-b -x 1",
        ]
    );
}

#[test]
fn source_types_and_children() {
    let s = Source::Shorthand("src".to_string());
    assert_eq!(s.get_type(), None);
    let typed = s.set_type(Some("dev".to_string()));
    assert_eq!(typed.get_type(), Some("dev".to_string()));
    let q = Source::Qualified(PackageSource {
        dir: "lib".to_string(),
        subdirs: Some(Subdirs::Qualified(vec![Source::Shorthand("a".to_string())])),
        type_: None,
    });
    let flat = q.to_qualified_without_children(Some("root".to_string()));
    assert_eq!(flat.dir, "root/lib");
    assert_eq!(flat.subdirs, None);
}
