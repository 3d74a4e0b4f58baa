use rewatch::helpers::{
    change_extension, contains_ascii_characters, file_path_to_compiler_asset_basename,
    file_path_to_module_name, format_namespaced_module_name, get_ast_path, get_basename,
    get_bs_build_path, get_bsc, get_build_path, get_compiler_asset, get_iast_path,
    get_mlmap_compile_path, get_mlmap_path, get_namespace_from_module_name,
    get_node_modules_path, get_package_path, get_path, is_implementation_file,
    is_interface_ast_file, is_interface_file, string_ends_with_any,
};
use rewatch::helpers::{get_bs_compiler_asset, is_below};
use rewatch::helpers::{get_abs_path, is_normal_absolute_dir, LexicalAbsolute};

#[test]
fn package_paths() {
    assert_eq!(get_package_path("/root", "pkg"), "/root/node_modules/pkg");
    assert_eq!(get_build_path("/root", "pkg"), "/root/node_modules/pkg/lib/ocaml");
    assert_eq!(get_bs_build_path("/root", "pkg"), "/root/node_modules/pkg/lib/bs");
    assert_eq!(get_path("/root", "pkg", "src/A.res"), "/root/pkg/src/A.res");
    assert_eq!(get_node_modules_path("/root"), "/root/node_modules");
    assert_eq!(get_mlmap_path("/r", "p", "Ns"), "/r/node_modules/p/lib/ocaml/Ns.mlmap");
    assert_eq!(get_mlmap_compile_path("/r", "p", "Ns"), "/r/node_modules/p/lib/ocaml/Ns.cmi");
}

#[test]
fn basenames_and_extensions() {
    assert_eq!(get_basename("src/foo/Bar.res"), "Bar");
    assert_eq!(get_basename("archive.tar.gz"), "archive.tar");
    assert_eq!(get_basename(".bashrc"), ".bashrc");
    assert_eq!(change_extension("src/Bar.res", "mjs"), "src/Bar.mjs");
    assert_eq!(change_extension("src/Bar", "js"), "src/Bar.js");
    assert_eq!(change_extension("src/Bar.res", ""), "src/Bar");
}

#[test]
fn module_names() {
    assert_eq!(file_path_to_compiler_asset_basename("src/foo.res", &None), "foo");
    assert_eq!(
        file_path_to_compiler_asset_basename("src/foo.res", &Some("Ns".to_string())),
        "foo-Ns"
    );
    assert_eq!(file_path_to_module_name("src/foo.res", &Some("Ns".to_string())), "Foo-Ns");
    assert_eq!(file_path_to_module_name("src/ünicode.res", &None), "Ünicode");
    assert_eq!(file_path_to_module_name("src/ß.res", &None), "SS");
}

#[test]
fn compiler_assets_drop_the_namespace_of_asts() {
    let ns = Some("Ns".to_string());
    assert_eq!(
        get_compiler_asset("src/foo.res", "pkg", &ns, "/r", "cmj"),
        "/r/node_modules/pkg/lib/ocaml/foo-Ns.cmj"
    );
    assert_eq!(
        get_compiler_asset("src/foo.res", "pkg", &ns, "/r", "ast"),
        "/r/node_modules/pkg/lib/ocaml/foo.ast"
    );
    assert_eq!(get_ast_path("src/foo.res", "pkg", "/r"), "/r/node_modules/pkg/lib/ocaml/foo.ast");
    assert_eq!(get_iast_path("src/foo.resi", "pkg", "/r"), "/r/node_modules/pkg/lib/ocaml/foo.iast");
}

#[test]
fn namespaces_of_module_names() {
    assert_eq!(get_namespace_from_module_name("Foo-Ns"), Some("Ns".to_string()));
    assert_eq!(get_namespace_from_module_name("Foo-Ns-Extra"), Some("Ns".to_string()));
    assert_eq!(get_namespace_from_module_name("Foo"), None);
    assert_eq!(format_namespaced_module_name("Foo-Ns"), "Ns.Foo");
    assert_eq!(format_namespaced_module_name("Foo-@Ns"), "Ns.Foo");
    assert_eq!(format_namespaced_module_name("Foo"), "Foo");
}

#[test]
fn interface_asts_and_ascii() {
    assert!(is_interface_ast_file("lib/ocaml/foo.iast"));
    assert!(!is_interface_ast_file("lib/ocaml/foo.ast"));
    assert!(contains_ascii_characters("  warning 3 "));
    assert!(!contains_ascii_characters(" \n\t "));
    assert!(!contains_ascii_characters(""));
}

#[test]
fn source_file_extensions() {
    for e in ["res", "ml", "re"] {
        assert!(is_implementation_file(e));
        assert!(!is_interface_file(e));
    }
    for e in ["resi", "mli", "rei"] {
        assert!(is_interface_file(e));
        assert!(!is_implementation_file(e));
    }
    assert!(!is_implementation_file("js"));
}

#[test]
fn compiler_per_platform() {
    assert_eq!(
        get_bsc("/r", "macos", "aarch64"),
        Some("/r/node_modules/rescript/darwinarm64/bsc.exe".to_string())
    );
    assert_eq!(get_bsc("/r", "macos", "x86_64"), Some("/r/node_modules/rescript/darwin/bsc.exe".to_string()));
    assert_eq!(get_bsc("/r", "linux", "x86_64"), Some("/r/node_modules/rescript/linux/bsc.exe".to_string()));
    assert_eq!(get_bsc("/r", "windows", "x86_64"), Some("/r/node_modules/rescript/win32/bsc.exe".to_string()));
    assert_eq!(get_bsc("/r", "freebsd", "x86_64"), None);
}

#[test]
fn extension_lists() {
    assert!(string_ends_with_any("src/A.res", &["res", "resi"]));
    assert!(!string_ends_with_any("src/A.js", &["res", "resi"]));
    assert!(string_ends_with_any("Makefile", &[""]));
}

#[test]
fn absolute_paths_without_the_file_system() {
    assert_eq!(get_abs_path("src/../lib/./A.res", "/home/me"), "/home/me/lib/A.res");
    assert_eq!(get_abs_path("/a/b/../c", "/home/me"), "/a/c");
    assert_eq!(get_abs_path("../../../..", "/home/me"), "/");
    assert_eq!("x/y".to_lexical_absolute("/w"), "/w/x/y");
    assert!(is_normal_absolute_dir("/home/me"));
    assert!(is_normal_absolute_dir("/"));
    assert!(!is_normal_absolute_dir("home"));
    assert!(!is_normal_absolute_dir("/home/"));
    assert!(!is_normal_absolute_dir("/home/../x"));
}

fn std_bs_asset(source: &str, canonical: &str, bs: &str, name: &str) -> String {
    let dir = std::path::Path::new(source).strip_prefix(canonical).unwrap().parent().unwrap();
    std::path::Path::new(bs).join(dir).join(name).to_str().unwrap().to_owned()
}

#[test]
fn editor_copies_of_compiler_assets() {
    let ns = Some("Ns".to_string());
    let bs = "/r/node_modules/pkg/lib/bs";
    for (source, canonical) in [
        ("/home/p/src/foo/A.res", "/home/p"),
        ("/home/p/A.res", "/home/p"),
        ("/home/p//src/./foo//A.res", "/home/p/"),
        ("/home/p/src/../lib/A.res", "/home//p"),
    ] {
        assert!(is_below(source, canonical));
        assert_eq!(
            get_bs_compiler_asset(source, "pkg", &ns, "/r", "cmj", canonical),
            std_bs_asset(source, canonical, bs, "A-Nscmj")
        );
        assert_eq!(
            get_bs_compiler_asset(source, "pkg", &ns, "/r", "ast", canonical),
            std_bs_asset(source, canonical, bs, "Aast")
        );
    }
    assert!(!is_below("/home/q/A.res", "/home/p"));
    assert!(!is_below("/home/p", "/home/p"));
    assert!(!is_below("src/A.res", "/home/p"));
}

#[test]
fn resolving_twice_changes_nothing() {
    let once = get_abs_path("a/./b/../../c//d", "/home/me");
    assert_eq!(once, "/home/me/c/d");
    assert_eq!(get_abs_path(&once, "/elsewhere"), once);
    assert!(is_normal_absolute_dir(&once));
}

#[test]
fn namespaces_read_back_from_asset_names() {
    let base = file_path_to_compiler_asset_basename("src/widget.res", &Some("MyNs".to_string()));
    assert_eq!(get_namespace_from_module_name(&base), Some("MyNs".to_string()));
}

#[test]
fn changing_an_extension_keeps_stem_and_folder() {
    let p = "src/sub/Foo.res";
    let q = change_extension(p, "mjs");
    assert_eq!(q, "src/sub/Foo.mjs");
    assert_eq!(get_basename(&q), get_basename(p));
    assert_eq!(std::path::Path::new(&q).parent(), std::path::Path::new(p).parent());
    assert_eq!(change_extension("a/b/", "x"), "a/b.x");
}

#[test]
fn absolute_paths_have_no_dot_components() {
    let r = get_abs_path("./a/../b/./c", "/work/dir");
    assert_eq!(r, "/work/dir/b/c");
    assert!(std::path::Path::new(&r)
        .components()
        .all(|c| !matches!(c, std::path::Component::CurDir | std::path::Component::ParentDir)));
}

#[test]
fn namespaces_read_back_from_module_names() {
    let named = file_path_to_module_name("src/app.res", &Some("Ns".to_string()));
    assert_eq!(named, "App-Ns");
    assert_eq!(get_namespace_from_module_name(&named), Some("Ns".to_string()));
    assert_eq!(get_namespace_from_module_name(&file_path_to_module_name("src/app.res", &None)), None);
}
