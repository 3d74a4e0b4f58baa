//! Where packages keep their build output, and how source files map to
//! module names and compiler assets.
use vstd::prelude::*;
use crate::paths::{
    file_stem, file_name, extension, with_extension, has_root, pieces, spans, dot_dot, is_normal_absolute,
    lexical_absolute, lexical_fold,
};
use crate::text::{ends_with, first_index};

verus! {

/// `<root>/node_modules/<package>`
pub open spec fn package_path(root: Seq<char>, package_name: Seq<char>) -> Seq<char> {
    root + "/node_modules/"@ + package_name
}

/// `<root>/node_modules/<package>/lib/ocaml`
pub open spec fn build_path(root: Seq<char>, package_name: Seq<char>) -> Seq<char> {
    package_path(root, package_name) + "/lib/ocaml"@
}

/// `<root>/node_modules/<package>/lib/bs`
pub open spec fn bs_build_path(root: Seq<char>, package_name: Seq<char>) -> Seq<char> {
    package_path(root, package_name) + "/lib/bs"@
}

pub fn get_package_path(root: &str, package_name: &str) -> (r: String)
    ensures
        r@ == package_path(root@, package_name@),
{
    let mut s = root.to_owned();
    s.append("/node_modules/");
    s.append(package_name);
    s
}

pub fn get_build_path(root: &str, package_name: &str) -> (r: String)
    ensures
        r@ == build_path(root@, package_name@),
{
    let mut s = get_package_path(root, package_name);
    s.append("/lib/ocaml");
    s
}

pub fn get_bs_build_path(root: &str, package_name: &str) -> (r: String)
    ensures
        r@ == bs_build_path(root@, package_name@),
{
    let mut s = get_package_path(root, package_name);
    s.append("/lib/bs");
    s
}

pub fn get_path(root: &str, package_name: &str, file: &str) -> (r: String)
    ensures
        r@ == root@ + seq!['/'] + package_name@ + seq!['/'] + file@,
{
    let mut s = root.to_owned();
    s.push('/');
    s.append(package_name);
    s.push('/');
    s.append(file);
    s
}

pub fn get_node_modules_path(root: &str) -> (r: String)
    ensures
        r@ == root@ + "/node_modules"@,
{
    let mut s = root.to_owned();
    s.append("/node_modules");
    s
}

/// The file stem of `path`; the path must have a file name.
pub fn get_basename(path: &str) -> (r: String)
    requires
        file_name(path@) is Some,
    ensures
        r@ == file_stem(path@).unwrap(),
{
    match crate::paths::file_stem_of(path) {
        Some(s) => s,
        None => {
            proof { assert(false); }
            String::new()
        },
    }
}

/// `path` with its extension replaced by `new_extension` (see `with_extension`).
pub fn change_extension(path: &str, new_extension: &str) -> (r: String)
    ensures
        r@ == with_extension(path@, new_extension@),
{
    crate::paths::with_extension_of(path, new_extension)
}

/// What `char::to_uppercase` yields for `c` (the Unicode uppercase mapping).
pub uninterp spec fn spec_to_uppercase(c: char) -> Seq<char>;

/// Calls `char::to_uppercase` and collects the characters it yields. The
/// contract names the result; by its documentation it holds one or more
/// characters.
#[verifier::external_body]
fn char_to_uppercase(c: char) -> (r: String)
    ensures
        r@ == spec_to_uppercase(c),
        r@.len() >= 1,
{
    c.to_uppercase().collect::<String>()
}

/// `s` with its first character replaced by its uppercase mapping.
pub open spec fn capitalized(s: Seq<char>) -> Seq<char> {
    if s.len() == 0 {
        s
    } else {
        spec_to_uppercase(s[0]) + s.skip(1)
    }
}

/// Capitalizes the first character in s.
fn capitalize(s: &str) -> (r: String)
    ensures
        r@ == capitalized(s@),
{
    let cs = crate::text::chars_of(s);
    if cs.len() == 0 {
        return String::new();
    }
    let mut r = char_to_uppercase(cs[0]);
    let rest = crate::text::string_from_range(&cs, 1, cs.len());
    r.append(rest.as_str());
    assert(cs@.subrange(1, cs@.len() as int) =~= s@.skip(1));
    r
}

/// The base name of the compiler assets of a source file: its stem, followed by
/// `-<namespace>` when there is a namespace.
pub open spec fn asset_basename(path: Seq<char>, namespace: Option<Seq<char>>) -> Seq<char> {
    match namespace {
        Some(ns) => file_stem(path).unwrap() + seq!['-'] + ns,
        None => file_stem(path).unwrap(),
    }
}

// this doesn't capitalize the module name! if the rescript name of the file is "foo.res" the
// compiler assets are foo-Namespace.cmt and foo-Namespace.cmj, but the module name is Foo
pub fn file_path_to_compiler_asset_basename(path: &str, namespace: &Option<String>) -> (r: String)
    requires
        file_name(path@) is Some,
    ensures
        r@ == asset_basename(path@, namespace.deep_view()),
{
    let base = get_basename(path);
    match namespace {
        Some(namespace) => {
            let mut r = base;
            r.push('-');
            r.append(namespace.as_str());
            r
        },
        None => base,
    }
}

/// The module name of a source file: its capitalized asset base name.
pub open spec fn module_name(path: Seq<char>, namespace: Option<Seq<char>>) -> Seq<char> {
    capitalized(asset_basename(path, namespace))
}

pub fn file_path_to_module_name(path: &str, namespace: &Option<String>) -> (r: String)
    requires
        file_name(path@) is Some,
    ensures
        r@ == module_name(path@, namespace.deep_view()),
{
    capitalize(file_path_to_compiler_asset_basename(path, namespace).as_str())
}

/// An ASCII letter or digit.
pub open spec fn is_ascii_alphanumeric(c: char) -> bool {
    ('0' <= c && c <= '9') || ('a' <= c && c <= 'z') || ('A' <= c && c <= 'Z')
}

/// Whether `s` holds at least one ASCII letter or digit (so it is more than
/// whitespace and punctuation).
pub fn contains_ascii_characters(str: &str) -> (r: bool)
    ensures
        r == exists|i: int| 0 <= i < str@.len() && is_ascii_alphanumeric(#[trigger] str@[i]),
{
    let cs = crate::text::chars_of(str);
    let mut i: usize = 0;
    while i < cs.len()
        invariant
            cs@ == str@,
            i <= cs@.len(),
            forall|j: int| 0 <= j < i ==> !is_ascii_alphanumeric(#[trigger] cs@[j]),
        decreases cs@.len() - i,
    {
        let c = cs[i];
        if ('0' <= c && c <= '9') || ('a' <= c && c <= 'z') || ('A' <= c && c <= 'Z') {
            assert(is_ascii_alphanumeric(str@[i as int]));
            return true;
        }
        i = i + 1;
    }
    false
}

/// The namespace that a compiler asset of the given extension carries: none for
/// `ast` and `asti`.
pub open spec fn asset_namespace(extension: Seq<char>, namespace: Option<Seq<char>>) -> Option<Seq<char>> {
    if extension == "ast"@ || extension == "asti"@ {
        None
    } else {
        namespace
    }
}

/// `<build path>/<asset base name>.<extension>`
pub open spec fn compiler_asset(
    source_file: Seq<char>,
    package_name: Seq<char>,
    namespace: Option<Seq<char>>,
    root_path: Seq<char>,
    extension: Seq<char>,
) -> Seq<char> {
    build_path(root_path, package_name) + seq!['/'] + asset_basename(
        source_file,
        asset_namespace(extension, namespace),
    ) + seq!['.'] + extension
}

pub fn get_compiler_asset(
    source_file: &str,
    package_name: &str,
    namespace: &Option<String>,
    root_path: &str,
    extension: &str,
) -> (r: String)
    requires
        file_name(source_file@) is Some,
    ensures
        r@ == compiler_asset(source_file@, package_name@, namespace.deep_view(), root_path@, extension@),
{
    let no_namespace: Option<String> = None;
    let namespace = if crate::text::str_equals(extension, "ast") || crate::text::str_equals(
        extension,
        "asti",
    ) {
        &no_namespace
    } else {
        namespace
    };
    let mut r = get_build_path(root_path, package_name);
    r.push('/');
    r.append(file_path_to_compiler_asset_basename(source_file, namespace).as_str());
    r.push('.');
    r.append(extension);
    r
}

/// The text between the first and the second `-` of a module name (or to its
/// end): the namespace that the name carries, if it has a `-`.
pub open spec fn namespace_of_module_name(s: Seq<char>) -> Option<Seq<char>> {
    match first_index(s, '-') {
        None => None,
        Some(k) => {
            let rest = s.skip(k + 1);
            match first_index(rest, '-') {
                Some(j) => Some(rest.take(j)),
                None => Some(rest),
            }
        },
    }
}

pub fn get_namespace_from_module_name(module_name: &str) -> (r: Option<String>)
    ensures
        r.deep_view() == namespace_of_module_name(module_name@),
{
    let cs = crate::text::chars_of(module_name);
    match crate::text::find_char_from(&cs, 0, '-') {
        None => {
            assert(cs@.skip(0) =~= cs@);
            None
        },
        Some(k) => {
            assert(cs@.skip(0) =~= cs@);
            assert(k < cs@.len());
            let end = match crate::text::find_char_from(&cs, k + 1, '-') {
                Some(j) => j,
                None => cs.len(),
            };
            let r = crate::text::string_from_range(&cs, k + 1, end);
            assert(r@ =~= namespace_of_module_name(module_name@).unwrap());
            Some(r)
        },
    }
}

pub fn is_interface_ast_file(file: &str) -> (r: bool)
    ensures
        r == ends_with(file@, ".iast"@),
{
    crate::text::str_ends_with(file, ".iast")
}

pub fn get_mlmap_path(root_path: &str, package_name: &str, namespace: &str) -> (r: String)
    ensures
        r@ == build_path(root_path@, package_name@) + seq!['/'] + namespace@ + ".mlmap"@,
{
    let mut r = get_build_path(root_path, package_name);
    r.push('/');
    r.append(namespace);
    r.append(".mlmap");
    r
}

pub fn get_mlmap_compile_path(root_path: &str, package_name: &str, namespace: &str) -> (r: String)
    ensures
        r@ == build_path(root_path@, package_name@) + seq!['/'] + namespace@ + ".cmi"@,
{
    let mut r = get_build_path(root_path, package_name);
    r.push('/');
    r.append(namespace);
    r.append(".cmi");
    r
}

pub fn get_ast_path(source_file: &str, package_name: &str, root_path: &str) -> (r: String)
    requires
        file_name(source_file@) is Some,
    ensures
        r@ == compiler_asset(source_file@, package_name@, None, root_path@, "ast"@),
{
    get_compiler_asset(source_file, package_name, &None, root_path, "ast")
}

pub fn get_iast_path(source_file: &str, package_name: &str, root_path: &str) -> (r: String)
    requires
        file_name(source_file@) is Some,
    ensures
        r@ == compiler_asset(source_file@, package_name@, None, root_path@, "iast"@),
{
    get_compiler_asset(source_file, package_name, &None, root_path, "iast")
}

/// `s` without the `c` characters at its start (`str::trim_start_matches`
/// with a character).
pub open spec fn trim_leading(s: Seq<char>, c: char) -> Seq<char>
    decreases s.len(),
{
    if s.len() > 0 && s[0] == c {
        trim_leading(s.drop_first(), c)
    } else {
        s
    }
}

/// How a module name reads to a person: `Module-Namespace` (or
/// `Module-@Namespace`) becomes `Namespace.Module`; a name without `-` stays.
/// Only the first two parts between `-` are looked at.
pub open spec fn namespaced_display(s: Seq<char>) -> Seq<char> {
    match first_index(s, '-') {
        None => s,
        Some(k) => {
            let parts = crate::text::split_on(s, '-');
            trim_leading(parts[1], '@') + seq!['.'] + parts[0]
        },
    }
}

/// Formats `ModuleName-Namespace` (or `ModuleName-@Namespace`) as
/// `Namespace.ModuleName`.
pub fn format_namespaced_module_name(module_name: &str) -> (r: String)
    ensures
        r@ == namespaced_display(module_name@),
{
    let cs = crate::text::chars_of(module_name);
    assert(cs@.skip(0) =~= cs@);
    match crate::text::find_char_from(&cs, 0, '-') {
        None => module_name.to_owned(),
        Some(_) => {
            let parts = crate::text::split_on_char(module_name, '-');
            proof {
                crate::text::lemma_split_on_has_two(module_name@, '-');
            }
            let ns = crate::text::chars_of(parts[1].as_str());
            let mut i: usize = 0;
            assert(ns@.skip(0) =~= ns@);
            while i < ns.len() && ns[i] == '@'
                invariant
                    i <= ns@.len(),
                    trim_leading(ns@, '@') == trim_leading(ns@.skip(i as int), '@'),
                decreases ns@.len() - i,
            {
                assert(ns@.skip(i as int).drop_first() =~= ns@.skip(i + 1));
                i = i + 1;
            }
            let mut r = crate::text::string_from_range(&ns, i, ns.len());
            assert(r@ =~= ns@.skip(i as int));
            r.push('.');
            r.append(parts[0].as_str());
            r
        },
    }
}

/// Extensions of ReScript, Reason and OCaml implementation files.
pub open spec fn implementation_extension(ext: Seq<char>) -> bool {
    ext == "res"@ || ext == "ml"@ || ext == "re"@
}

/// Extensions of ReScript, Reason and OCaml interface files.
pub open spec fn interface_extension(ext: Seq<char>) -> bool {
    ext == "resi"@ || ext == "mli"@ || ext == "rei"@
}

pub fn is_implementation_file(extension: &str) -> (r: bool)
    ensures
        r == implementation_extension(extension@),
{
    crate::text::str_equals(extension, "res") || crate::text::str_equals(extension, "ml")
        || crate::text::str_equals(extension, "re")
}

pub fn is_interface_file(extension: &str) -> (r: bool)
    ensures
        r == interface_extension(extension@),
{
    crate::text::str_equals(extension, "resi") || crate::text::str_equals(extension, "mli")
        || crate::text::str_equals(extension, "rei")
}

/// The folder of the compiler for a platform (operating system and
/// architecture as `std::env::consts` names them); none for the others.
pub open spec fn bsc_subfolder(os: Seq<char>, arch: Seq<char>) -> Option<Seq<char>> {
    if os == "macos"@ && arch == "aarch64"@ {
        Some("darwinarm64"@)
    } else if os == "macos"@ {
        Some("darwin"@)
    } else if os == "linux"@ {
        Some("linux"@)
    } else if os == "windows"@ {
        Some("win32"@)
    } else {
        None
    }
}

/// The compiler that the `rescript` package ships for the platform; `None`
/// on a platform it does not support.
pub fn get_bsc(root_path: &str, os: &str, arch: &str) -> (r: Option<String>)
    ensures
        match bsc_subfolder(os@, arch@) {
            Some(sub) => r matches Some(p) && p@ == root_path@ + "/node_modules"@ + "/rescript/"@ + sub
                + "/bsc.exe"@,
            None => r is None,
        },
{
    let subfolder = if crate::text::str_equals(os, "macos") && crate::text::str_equals(arch, "aarch64") {
        "darwinarm64"
    } else if crate::text::str_equals(os, "macos") {
        "darwin"
    } else if crate::text::str_equals(os, "linux") {
        "linux"
    } else if crate::text::str_equals(os, "windows") {
        "win32"
    } else {
        return None;
    };
    let mut r = get_node_modules_path(root_path);
    r.append("/rescript/");
    r.append(subfolder);
    r.append("/bsc.exe");
    Some(r)
}

/// The extension of a path, the empty text when it has none.
pub open spec fn extension_or_empty(path: Seq<char>) -> Seq<char> {
    match extension(path) {
        Some(e) => e,
        None => Seq::empty(),
    }
}

/// Whether the extension of `s` (empty when it has none) is one of `suffixes`.
pub fn string_ends_with_any(s: &str, suffixes: &[&str]) -> (r: bool)
    ensures
        r == exists|i: int| 0 <= i < suffixes@.len() && (#[trigger] suffixes@[i])@ == extension_or_empty(s@),
{
    let ext = match crate::paths::extension_of_path(s) {
        Some(e) => e,
        None => String::new(),
    };
    let mut i: usize = 0;
    while i < suffixes.len()
        invariant
            ext@ == extension_or_empty(s@),
            i <= suffixes@.len(),
            forall|j: int| 0 <= j < i ==> (#[trigger] suffixes@[j])@ != extension_or_empty(s@),
        decreases suffixes@.len() - i,
    {
        if crate::text::str_equals(ext.as_str(), suffixes[i]) {
            return true;
        }
        i = i + 1;
    }
    false
}

/// The first `-` of `a + "-" + b` is the one between them when `a` has none.
proof fn lemma_first_dash_after(a: Seq<char>, b: Seq<char>)
    requires
        forall|i: int| 0 <= i < a.len() ==> a[i] != '-',
    ensures
        first_index(a + seq!['-'] + b, '-') == Some(a.len() as int),
{
    let s = a + seq!['-'] + b;
    crate::text::lemma_first_index(s, '-');
    assert(s[a.len() as int] == '-');
    match first_index(s, '-') {
        Some(k) => {
            if k < a.len() {
                assert(s[k] == a[k]);
            }
        },
        None => {},
    }
}

/// A module's namespace can be read back from the base name of its compiler
/// assets: when neither the file's stem nor the namespace holds a `-`, the
/// namespace read from `stem-namespace` is the namespace.
pub proof fn lemma_namespace_read_back(path: Seq<char>, ns: Seq<char>)
    requires
        file_name(path) is Some,
        forall|i: int| 0 <= i < file_stem(path).unwrap().len() ==> file_stem(path).unwrap()[i] != '-',
        forall|i: int| 0 <= i < ns.len() ==> ns[i] != '-',
    ensures
        namespace_of_module_name(asset_basename(path, Some(ns))) == Some(ns),
{
    let stem = file_stem(path).unwrap();
    let s = stem + seq!['-'] + ns;
    lemma_first_dash_after(stem, ns);
    assert(s.skip(stem.len() as int + 1) =~= ns);
    crate::text::lemma_first_index(ns, '-');
    if let Some(j) = first_index(ns, '-') {
        assert(ns[j] == '-');
    }
}

/// The namespace can be read back from a module name: when neither the
/// file's stem nor the namespace holds a `-`, nor the upper-case form of the
/// stem's first character, the module name under namespace `ns` carries
/// `ns`, and the module name without a namespace carries none.
pub proof fn lemma_module_name_namespace(path: Seq<char>, ns: Seq<char>)
    requires
        file_name(path) is Some,
        forall|i: int| 0 <= i < file_stem(path).unwrap().len() ==> file_stem(path).unwrap()[i] != '-',
        forall|i: int| 0 <= i < ns.len() ==> ns[i] != '-',
        forall|i: int|
            0 <= i < spec_to_uppercase(file_stem(path).unwrap()[0]).len() ==> spec_to_uppercase(
                file_stem(path).unwrap()[0],
            )[i] != '-',
    ensures
        namespace_of_module_name(module_name(path, Some(ns))) == Some(ns),
        namespace_of_module_name(module_name(path, None)) is None,
{
    let stem = file_stem(path).unwrap();
    crate::paths::lemma_file_stem_nonempty(path);
    let u = spec_to_uppercase(stem[0]);
    let a = u + stem.skip(1);
    assert forall|i: int| 0 <= i < a.len() implies a[i] != '-' by {
        if i >= u.len() {
            assert(a[i] == stem[i - u.len() + 1]);
        }
    }
    let with_ns = stem + seq!['-'] + ns;
    assert(with_ns[0] == stem[0]);
    assert(with_ns.skip(1) =~= stem.skip(1) + seq!['-'] + ns);
    assert(module_name(path, Some(ns)) =~= a + seq!['-'] + ns);
    lemma_first_dash_after(a, ns);
    let s1 = a + seq!['-'] + ns;
    assert(s1.skip(a.len() as int + 1) =~= ns);
    crate::text::lemma_first_index(ns, '-');
    if let Some(j) = first_index(ns, '-') {
        assert(ns[j] == '-');
    }
    assert(module_name(path, None) =~= a);
    crate::text::lemma_first_index(a, '-');
    if let Some(k) = first_index(a, '-') {
        assert(a[k] == '-');
    }
}

/// `source` lies below the folder `base`, both absolute: the components of
/// `base` start those of `source`, which has at least one more (what
/// `Path::strip_prefix` and then `parent` need to succeed).
pub open spec fn lies_below(source: Seq<char>, base: Seq<char>) -> bool {
    &&& has_root(source)
    &&& has_root(base)
    &&& pieces(source).len() > pieces(base).len()
    &&& pieces(source).take(pieces(base).len() as int) == pieces(base)
}

/// The folder of `source` relative to `base` (see `lies_below`): the text of
/// `source` from its first component below `base` to the end of its last
/// folder; empty when the file lies directly in `base`.
pub open spec fn folder_below(source: Seq<char>, base: Seq<char>) -> Seq<char> {
    let sp = spans(source);
    let k = spans(base).len() as int;
    if sp.len() >= k + 2 {
        source.subrange(sp[k].0, sp[sp.len() - 2].1)
    } else {
        Seq::empty()
    }
}

/// Where the editor copy of a compiler asset goes: the package's `lib/bs`
/// folder, then the file's folder relative to the package's (canonical)
/// folder, then the asset base name with `extension` right after it.
pub open spec fn bs_compiler_asset(
    source_file: Seq<char>,
    package_name: Seq<char>,
    namespace: Option<Seq<char>>,
    root_path: Seq<char>,
    extension: Seq<char>,
    canonical_package_path: Seq<char>,
) -> Seq<char> {
    let ns = if extension == "ast"@ || extension == "iast"@ {
        None
    } else {
        namespace
    };
    let dir = folder_below(source_file, canonical_package_path);
    let name = asset_basename(source_file, ns) + extension;
    if dir.len() == 0 {
        bs_build_path(root_path, package_name) + seq!['/'] + name
    } else {
        bs_build_path(root_path, package_name) + seq!['/'] + dir + seq!['/'] + name
    }
}

/// Whether `source` lies below `base` (see `lies_below`).
pub fn is_below(source: &str, base: &str) -> (r: bool)
    ensures
        r == lies_below(source@, base@),
{
    let s = crate::text::chars_of(source);
    let b = crate::text::chars_of(base);
    if s.len() == 0 || s[0] != '/' || b.len() == 0 || b[0] != '/' {
        return false;
    }
    let sp = crate::paths::component_strings(&s);
    let bp = crate::paths::component_strings(&b);
    if sp.len() <= bp.len() {
        return false;
    }
    let mut i: usize = 0;
    while i < bp.len()
        invariant
            sp.deep_view() == pieces(source@),
            bp.deep_view() == pieces(base@),
            bp@.len() < sp@.len(),
            i <= bp@.len(),
            forall|j: int| 0 <= j < i ==> pieces(source@)[j] == pieces(base@)[j],
        decreases bp@.len() - i,
    {
        assert(sp.deep_view()[i as int] == sp@[i as int]@);
        assert(bp.deep_view()[i as int] == bp@[i as int]@);
        if !crate::text::str_equals(sp[i].as_str(), bp[i].as_str()) {
            assert(pieces(source@).take(pieces(base@).len() as int)[i as int] == pieces(source@)[i as int]);
            return false;
        }
        i = i + 1;
    }
    assert(pieces(source@).take(pieces(base@).len() as int) =~= pieces(base@));
    true
}

/// The editor copy of a compiler asset (see `bs_compiler_asset`); the source
/// file must lie below the package's canonical folder and have a file name.
pub fn get_bs_compiler_asset(
    source_file: &str,
    package_name: &str,
    namespace: &Option<String>,
    root_path: &str,
    extension: &str,
    canonical_package_path: &str,
) -> (r: String)
    requires
        lies_below(source_file@, canonical_package_path@),
        file_name(source_file@) is Some,
    ensures
        r@ == bs_compiler_asset(
            source_file@,
            package_name@,
            namespace.deep_view(),
            root_path@,
            extension@,
            canonical_package_path@,
        ),
{
    let no_namespace: Option<String> = None;
    let namespace = if crate::text::str_equals(extension, "ast") || crate::text::str_equals(
        extension,
        "iast",
    ) {
        &no_namespace
    } else {
        namespace
    };
    let s = crate::text::chars_of(source_file);
    let b = crate::text::chars_of(canonical_package_path);
    let sp = crate::paths::component_spans(&s);
    let bp = crate::paths::component_spans(&b);
    let k = bp.len();
    let n = sp.len();
    proof {
        crate::paths::lemma_spans_ordered(source_file@);
    }
    let dir = if n > k && n - k >= 2 {
        let (a, _) = sp[k];
        let (_, e) = sp[n - 2];
        assert(crate::paths::usize_spans(sp@)[k as int] == (a as int, sp@[k as int].1 as int));
        assert(crate::paths::usize_spans(sp@)[n - 2] == (sp@[n - 2].0 as int, e as int));
        if k < n - 2 {
            assert(spans(source_file@)[k as int].1 < spans(source_file@)[n - 2].0);
        }
        crate::text::string_from_range(&s, a, e)
    } else {
        String::new()
    };
    assert(dir@ == folder_below(source_file@, canonical_package_path@));
    let mut r = get_bs_build_path(root_path, package_name);
    r.push('/');
    let d = crate::text::chars_of(dir.as_str());
    if d.len() > 0 {
        r.append(dir.as_str());
        r.push('/');
    }
    r.append(file_path_to_compiler_asset_basename(source_file, namespace).as_str());
    r.append(extension);
    r
}

/// The absolute form of `path`, resolved against the working directory
/// `current_dir` without touching the file system (see `lexical_absolute`).
pub fn get_abs_path(path: &str, current_dir: &str) -> (r: String)
    requires
        is_normal_absolute(current_dir@),
    ensures
        r@ == lexical_absolute(path@, current_dir@),
{
    let p = crate::text::chars_of(path);
    let ps = crate::paths::component_strings(&p);
    let mut acc: Vec<String> = if p.len() > 0 && p[0] == '/' {
        Vec::new()
    } else {
        crate::paths::component_strings(&crate::text::chars_of(current_dir))
    };
    let ghost start = acc.deep_view();
    assert(lexical_fold(start, pieces(path@).take(0)) == start);
    let mut k: usize = 0;
    while k < ps.len()
        invariant
            k <= ps@.len(),
            ps.deep_view() == pieces(path@),
            start == (if has_root(path@) { Seq::empty() } else { pieces(current_dir@) }),
            acc.deep_view() == lexical_fold(start, pieces(path@).take(k as int)),
        decreases ps@.len() - k,
    {
        let ghost before = acc.deep_view();
        assert(pieces(path@).take(k + 1).drop_last() =~= pieces(path@).take(k as int));
        assert(pieces(path@).take(k + 1).last() == ps.deep_view()[k as int]);
        let cs = crate::text::chars_of(ps[k].as_str());
        if cs.len() == 2 && cs[0] == '.' && cs[1] == '.' {
            assert(ps.deep_view()[k as int] =~= dot_dot());
            if acc.len() > 0 {
                acc.pop();
                assert(acc.deep_view() =~= before.drop_last());
            }
        } else {
            assert(dot_dot().len() == 2 && dot_dot()[0] == '.' && dot_dot()[1] == '.');
            assert(ps.deep_view()[k as int] != dot_dot());
            acc.push(ps[k].clone());
            assert(acc.deep_view() =~= before.push(ps.deep_view()[k as int]));
        }
        k = k + 1;
    }
    assert(pieces(path@).take(k as int) =~= pieces(path@));
    crate::paths::render_components(&acc)
}

/// Whether `dir` is a working directory as `get_abs_path` needs it (see
/// `is_normal_absolute`).
pub fn is_normal_absolute_dir(dir: &str) -> (r: bool)
    ensures
        r == is_normal_absolute(dir@),
{
    let cs = crate::text::chars_of(dir);
    if cs.len() == 0 || cs[0] != '/' {
        return false;
    }
    let ps = crate::paths::component_strings(&cs);
    let shown = crate::paths::render_components(&ps);
    if !crate::text::str_equals(shown.as_str(), dir) {
        return false;
    }
    let mut k: usize = 0;
    while k < ps.len()
        invariant
            ps.deep_view() == pieces(dir@),
            k <= ps@.len(),
            forall|j: int| 0 <= j < k ==> #[trigger] pieces(dir@)[j] != dot_dot(),
        decreases ps@.len() - k,
    {
        let p = crate::text::chars_of(ps[k].as_str());
        if p.len() == 2 && p[0] == '.' && p[1] == '.' {
            assert(pieces(dir@)[k as int] =~= dot_dot());
            return false;
        }
        assert(ps.deep_view()[k as int] == ps@[k as int]@);
        assert(pieces(dir@)[k as int] != dot_dot()) by {
            if pieces(dir@)[k as int] == dot_dot() {
                assert(p@.len() == 2 && p@[0] == '.' && p@[1] == '.');
            }
        }
        k = k + 1;
    }
    true
}

/// Turning a path into an absolute one without touching the file system.
pub trait LexicalAbsolute {
    fn to_lexical_absolute(&self, current_dir: &str) -> String
        requires
            is_normal_absolute(current_dir@),
    ;
}

impl LexicalAbsolute for str {
    /// The absolute form of the path, against the working directory
    /// `current_dir` (see `lexical_absolute`).
    fn to_lexical_absolute(&self, current_dir: &str) -> (r: String)
        ensures
            r@ == lexical_absolute(self@, current_dir@),
    {
        get_abs_path(self, current_dir)
    }
}

} // verus!
