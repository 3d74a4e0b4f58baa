//! Turning source files into ASTs: which ppx preprocessors a file needs, and
//! how the outcome of the parser is recorded for each module.
use vstd::prelude::*;
use crate::build_types::{Interface, Module, ParseState, SourceFile, SourceType};
use crate::packages::module_map;
use crate::config::{Config, OneOrMore, flattened_flags, jsx_args, jsx_mode_args, jsx_module_args, ppx_args, uncurried_args};
use crate::text::{contains, ends_with, starts_with, str_contains};

verus! {

/// What the outcome of parsing changed, for the caller to act on: `ok` when
/// both files parsed, `failed` when one of them did not, and the texts
/// (warnings kept for pinned dependencies, then errors) to add to the
/// package's log and to the output, in order.
#[derive(Debug)]
pub struct ParseReport {
    pub ok: bool,
    pub failed: bool,
    pub messages: Vec<String>,
}

/// The state an implementation file gets from its parse: warnings of a
/// pinned dependency are kept (and the file stays dirty so that they are
/// shown again next time); other successes are clean; an error keeps the file
/// dirty.
pub open spec fn parsed_state(result: Result<(String, Option<String>), String>, is_pinned_dep: bool) -> (ParseState, bool) {
    match result {
        Ok((_, warnings)) => if is_pinned_dep && warnings is Some {
            (ParseState::Warning, true)
        } else {
            (ParseState::Success, false)
        },
        Err(_) => (ParseState::ParseError, true),
    }
}

/// The text a parse outcome adds to the log: kept warnings, or the error.
pub open spec fn parse_messages(result: Result<(String, Option<String>), String>, is_pinned_dep: bool) -> Seq<Seq<char>> {
    match result {
        Ok((_, Some(w))) => if is_pinned_dep {
            seq![w@]
        } else {
            Seq::empty()
        },
        Ok((_, None)) => Seq::empty(),
        Err(e) => seq![e@],
    }
}

/// The same for the interface file, which may be absent (`Ok(None)`).
pub open spec fn interface_messages(
    result: Result<Option<(String, Option<String>)>, String>,
    is_pinned_dep: bool,
) -> Seq<Seq<char>> {
    match result {
        Ok(Some(r)) => parse_messages(Ok(r), is_pinned_dep),
        Ok(None) => Seq::empty(),
        Err(e) => seq![e@],
    }
}

/// The interface file after both outcomes: a successful implementation parse
/// first clears its dirty flag, then its own outcome (if any) sets its state.
pub open spec fn interface_after(
    i: Interface,
    ast_ok: bool,
    result: Result<Option<(String, Option<String>)>, String>,
    is_pinned_dep: bool,
) -> (ParseState, bool) {
    match result {
        Ok(Some(r)) => parsed_state(Ok(r), is_pinned_dep),
        Ok(None) => (i.parse_state, if ast_ok { false } else { i.parse_dirty }),
        Err(e) => (ParseState::ParseError, true),
    }
}

fn one_message(s: &String) -> (r: Vec<String>)
    ensures
        r.deep_view() == seq![s@],
{
    let mut v: Vec<String> = Vec::new();
    v.push(s.clone());
    assert(v.deep_view() =~= seq![s@]);
    v
}

/// Records the outcome of parsing a module's files: the AST of the
/// implementation (its path and any warnings, or the error text) and that of
/// the interface (none when there is no interface file).
pub fn apply_ast_results(
    source_file: &mut SourceFile,
    ast_result: &Result<(String, Option<String>), String>,
    iast_result: &Result<Option<(String, Option<String>)>, String>,
    is_pinned_dep: bool,
) -> (r: ParseReport)
    ensures
        (final(source_file).implementation.parse_state, final(source_file).implementation.parse_dirty)
            == parsed_state(*ast_result, is_pinned_dep),
        final(source_file).implementation.path == old(source_file).implementation.path,
        final(source_file).implementation.compile_state == old(source_file).implementation.compile_state,
        final(source_file).implementation.last_modified == old(source_file).implementation.last_modified,
        final(source_file).embeds == old(source_file).embeds,
        old(source_file).interface is None ==> final(source_file).interface is None,
        old(source_file).interface matches Some(i) ==> final(source_file).interface matches Some(j) && (
        j.parse_state, j.parse_dirty) == interface_after(i, ast_result is Ok, *iast_result, is_pinned_dep)
            && j.path == i.path && j.compile_state == i.compile_state && j.last_modified
            == i.last_modified,
        r.ok == (ast_result is Ok && iast_result is Ok),
        r.failed == (ast_result is Err || iast_result is Err),
        r.messages.deep_view() == parse_messages(*ast_result, is_pinned_dep) + interface_messages(
            *iast_result,
            is_pinned_dep,
        ),
{
    let mut messages: Vec<String> = Vec::new();
    let ast_ok = match ast_result {
        Ok((_path, Some(stderr_warnings))) if is_pinned_dep => {
            source_file.implementation.parse_state = ParseState::Warning;
            source_file.implementation.parse_dirty = true;
            match &mut source_file.interface {
                Some(interface) => {
                    interface.parse_dirty = false;
                },
                None => {},
            }
            messages = one_message(stderr_warnings);
            true
        },
        Ok(_) => {
            source_file.implementation.parse_state = ParseState::Success;
            source_file.implementation.parse_dirty = false;
            match &mut source_file.interface {
                Some(interface) => {
                    interface.parse_dirty = false;
                },
                None => {},
            }
            true
        },
        Err(err) => {
            source_file.implementation.parse_state = ParseState::ParseError;
            source_file.implementation.parse_dirty = true;
            messages = one_message(err);
            false
        },
    };
    assert(messages.deep_view() == parse_messages(*ast_result, is_pinned_dep));
    let ghost after_ast = messages.deep_view();
    let iast_ok = match iast_result {
        Ok(Some((_path, Some(stderr_warnings)))) if is_pinned_dep => {
            match &mut source_file.interface {
                Some(interface) => {
                    interface.parse_state = ParseState::Warning;
                    interface.parse_dirty = true;
                },
                None => {},
            }
            messages.push(stderr_warnings.clone());
            true
        },
        Ok(Some(_)) => {
            match &mut source_file.interface {
                Some(interface) => {
                    interface.parse_state = ParseState::Success;
                    interface.parse_dirty = false;
                },
                None => {},
            }
            true
        },
        Err(err) => {
            match &mut source_file.interface {
                Some(interface) => {
                    interface.parse_state = ParseState::ParseError;
                    interface.parse_dirty = true;
                },
                None => {},
            }
            messages.push(err.clone());
            false
        },
        Ok(None) => true,
    };
    assert(messages.deep_view() =~= after_ast + interface_messages(*iast_result, is_pinned_dep));
    ParseReport { ok: ast_ok && iast_ok, failed: !(ast_ok && iast_ok), messages }
}

/// Whether a ppx is run on a file with these contents: the coverage ppx
/// only when coverage is switched on; the GraphQL, spice, Relay and
/// re-formality ppxes only on files that use them; every other ppx always.
pub open spec fn ppx_wanted(flag: Seq<char>, contents: Seq<char>, bisect_enabled: bool) -> bool {
    if contains(flag, "bisect"@) {
        bisect_enabled
    } else if (contains(flag, "graphql-ppx"@) || contains(flag, "graphql_ppx"@)) && !contains(
        contents,
        "%graphql"@,
    ) {
        false
    } else if contains(flag, "spice"@) && !contains(contents, "@spice"@) {
        false
    } else if contains(flag, "rescript-relay"@) && !contains(contents, "%relay"@) {
        false
    } else if contains(flag, "re-formality"@) && !contains(contents, "%form"@) {
        false
    } else {
        true
    }
}

/// Whether to run the ppx `flag` on a file with these contents;
/// `bisect_enabled` says whether coverage is switched on (the environment
/// variable `BISECT_ENABLE` is set).
pub fn include_ppx(flag: &str, contents: &str, bisect_enabled: bool) -> (r: bool)
    ensures
        r == ppx_wanted(flag@, contents@, bisect_enabled),
{
    if str_contains(flag, "bisect") {
        return bisect_enabled;
    } else if (str_contains(flag, "graphql-ppx") || str_contains(flag, "graphql_ppx")) && !str_contains(
        contents,
        "%graphql",
    ) {
        return false;
    } else if str_contains(flag, "spice") && !str_contains(contents, "@spice") {
        return false;
    } else if str_contains(flag, "rescript-relay") && !str_contains(contents, "%relay") {
        return false;
    } else if str_contains(flag, "re-formality") && !str_contains(contents, "%form") {
        return false;
    }
    true
}

/// A flag entry as text.
pub enum FlagEntry {
    Single(Seq<char>),
    Multiple(Seq<Seq<char>>),
}

pub open spec fn flag_entry(x: OneOrMore<String>) -> FlagEntry {
    match x {
        OneOrMore::Single(s) => FlagEntry::Single(s@),
        OneOrMore::Multiple(v) => FlagEntry::Multiple(v.deep_view()),
    }
}

/// The ppx that a flag entry names: the entry itself, or the first of a list.
pub open spec fn entry_ppx(x: FlagEntry) -> Seq<char> {
    match x {
        FlagEntry::Single(s) => s,
        FlagEntry::Multiple(v) => v[0],
    }
}

/// Every list entry names a ppx.
pub open spec fn entries_named(xs: Seq<OneOrMore<String>>) -> bool {
    forall|i: int| 0 <= i < xs.len() ==> (#[trigger] xs[i] matches OneOrMore::Multiple(v) ==> v@.len() > 0)
}

/// The entries kept for a file, in order.
pub open spec fn kept_entries(xs: Seq<OneOrMore<String>>, contents: Seq<char>, bisect_enabled: bool) -> Seq<OneOrMore<String>> {
    xs.filter(|x: OneOrMore<String>| ppx_wanted(entry_ppx(flag_entry(x)), contents, bisect_enabled))
}

fn clone_entry(x: &OneOrMore<String>) -> (r: OneOrMore<String>)
    ensures
        flag_entry(r) == flag_entry(*x),
{
    match x {
        OneOrMore::Single(s) => OneOrMore::Single(s.clone()),
        OneOrMore::Multiple(v) => {
            let mut w: Vec<String> = Vec::new();
            let mut i: usize = 0;
            while i < v.len()
                invariant
                    i <= v@.len(),
                    w.deep_view() == v.deep_view().take(i as int),
                decreases v@.len() - i,
            {
                let ghost before = w.deep_view();
                w.push(v[i].clone());
                assert(w.deep_view() =~= before.push(v.deep_view()[i as int]));
                i = i + 1;
                assert(w.deep_view() =~= v.deep_view().take(i as int));
            }
            assert(w.deep_view() =~= v.deep_view());
            OneOrMore::Multiple(w)
        },
    }
}

/// The ppx flag entries that apply to a file with these contents (see
/// `ppx_wanted`); a list entry must name its ppx first.
pub fn filter_ppx_flags(
    ppx_flags: &Option<Vec<OneOrMore<String>>>,
    contents: &str,
    bisect_enabled: bool,
) -> (r: Option<Vec<OneOrMore<String>>>)
    requires
        ppx_flags matches Some(xs) ==> entries_named(xs@),
    ensures
        match (*ppx_flags, r) {
            (None, None) => true,
            (Some(xs), Some(ys)) => ys@.map_values(|y: OneOrMore<String>| flag_entry(y)) == kept_entries(
                xs@,
                contents@,
                bisect_enabled,
            ).map_values(|x: OneOrMore<String>| flag_entry(x)),
            _ => false,
        },
{
    match ppx_flags {
        None => None,
        Some(flags) => {
            let mut kept: Vec<OneOrMore<String>> = Vec::new();
            let mut i: usize = 0;
            while i < flags.len()
                invariant
                    i <= flags@.len(),
                    entries_named(flags@),
                    kept@.map_values(|y: OneOrMore<String>| flag_entry(y)) == kept_entries(
                        flags@.take(i as int),
                        contents@,
                        bisect_enabled,
                    ).map_values(|x: OneOrMore<String>| flag_entry(x)),
                decreases flags@.len() - i,
            {
                let ghost before = kept@;
                proof {
                    reveal(Seq::filter);
                    assert(flags@.take(i + 1).drop_last() =~= flags@.take(i as int));
                    assert(flags@.take(i + 1).last() == flags@[i as int]);
                }
                let wanted = match &flags[i] {
                    OneOrMore::Single(s) => include_ppx(s.as_str(), contents, bisect_enabled),
                    OneOrMore::Multiple(v) => {
                        assert(flags@[i as int] matches OneOrMore::Multiple(w) ==> w@.len() > 0);
                        include_ppx(v[0].as_str(), contents, bisect_enabled)
                    },
                };
                if wanted {
                    kept.push(clone_entry(&flags[i]));
                    assert(kept@.map_values(|y: OneOrMore<String>| flag_entry(y)) =~= before.map_values(
                        |y: OneOrMore<String>| flag_entry(y),
                    ).push(flag_entry(flags@[i as int])));
                    assert(kept_entries(flags@.take(i + 1), contents@, bisect_enabled) == kept_entries(
                        flags@.take(i as int),
                        contents@,
                        bisect_enabled,
                    ).push(flags@[i as int]));
                    assert(kept_entries(flags@.take(i + 1), contents@, bisect_enabled).map_values(
                        |x: OneOrMore<String>| flag_entry(x),
                    ) =~= kept_entries(flags@.take(i as int), contents@, bisect_enabled).map_values(
                        |x: OneOrMore<String>| flag_entry(x),
                    ).push(flag_entry(flags@[i as int])));
                }
                i = i + 1;
            }
            assert(flags@.take(i as int) =~= flags@);
            Some(kept)
        },
    }
}

/// The extension of an AST file: `.iast` when the source file's extension ends
/// in `.iast`, else `.ast`. (An extension never holds a `.`, so this is `.ast`
/// for every path.)
pub open spec fn ast_extension(path: Seq<char>) -> Seq<char> {
    if ends_with(crate::paths::extension(path).unwrap(), ".iast"@) {
        ".iast"@
    } else {
        ".ast"@
    }
}

/// The extension of the AST file for a source file; the path must have an
/// extension.
pub fn path_to_ast_extension(path: &str) -> (r: String)
    requires
        crate::paths::extension(path@) is Some,
    ensures
        r@ == ast_extension(path@),
{
    match crate::paths::extension_of_path(path) {
        Some(extension) => if crate::helpers::is_interface_ast_file(extension.as_str()) {
            ".iast".to_owned()
        } else {
            ".ast".to_owned()
        },
        None => {
            proof {
                assert(false);
            }
            ".ast".to_owned()
        },
    }
}

/// The first line of a text, as `str::lines` gives it: up to the first line
/// feed, without a carriage return right before it; the empty text has none
/// (here: the empty line).
pub open spec fn first_line(s: Seq<char>) -> Seq<char> {
    match crate::text::first_index(s, '\n') {
        Some(k) => if k > 0 && s[k - 1] == '\r' {
            s.take(k - 1)
        } else {
            s.take(k)
        },
        None => s,
    }
}

/// `s` with `prefix` removed from its start as many times as it occurs there
/// (`str::trim_start_matches`).
pub open spec fn strip_prefixes(s: Seq<char>, prefix: Seq<char>) -> Seq<char>
    decreases s.len(),
{
    if prefix.len() > 0 && starts_with(s, prefix) {
        strip_prefixes(s.skip(prefix.len() as int), prefix)
    } else {
        s
    }
}

/// Whether a generated embed file must be made again: when it cannot be read,
/// when its first line is not a `// HASH: ` comment, or when the hash there
/// is not `hash`.
pub open spec fn embed_dirty(contents: Option<Seq<char>>, hash: Seq<char>) -> bool {
    match contents {
        None => true,
        Some(c) => {
            let line = first_line(c);
            !starts_with(line, "// HASH: "@) || strip_prefixes(line, "// HASH: "@) != hash
        },
    }
}

fn starts_at(cs: &Vec<char>, from: usize, to: usize, p: &Vec<char>) -> (r: bool)
    requires
        from <= to <= cs@.len(),
    ensures
        r == starts_with(cs@.subrange(from as int, to as int), p@),
{
    let ghost s = cs@.subrange(from as int, to as int);
    if to - from < p.len() {
        return false;
    }
    let mut j: usize = 0;
    while j < p.len()
        invariant
            from <= to <= cs@.len(),
            s == cs@.subrange(from as int, to as int),
            p@.len() <= to - from,
            j <= p@.len(),
            forall|m: int| 0 <= m < j ==> cs@[from + m] == p@[m],
        decreases p@.len() - j,
    {
        if cs[from + j] != p[j] {
            assert(s.take(p@.len() as int)[j as int] == cs@[from + j]);
            return false;
        }
        j = j + 1;
    }
    assert(s.take(p@.len() as int) =~= p@);
    true
}

/// Whether the embed file with these contents (`None`: missing or unreadable)
/// must be generated again for `hash` (see `embed_dirty`).
pub fn is_embed_dirty(contents: Option<&str>, hash: &str) -> (r: bool)
    ensures
        r == embed_dirty(
            match contents {
                Some(c) => Some(c@),
                None => None,
            },
            hash@,
        ),
{
    let c = match contents {
        None => return true,
        Some(c) => c,
    };
    let cs = crate::text::chars_of(c);
    assert(cs@.skip(0) =~= cs@);
    let end = match crate::text::find_char_from(&cs, 0, '\n') {
        Some(k) => if k > 0 && cs[k - 1] == '\r' {
            k - 1
        } else {
            k
        },
        None => cs.len(),
    };
    assert(cs@.subrange(0, end as int) =~= first_line(c@));
    let prefix = crate::text::chars_of("// HASH: ");
    if !starts_at(&cs, 0, end, &prefix) {
        return true;
    }
    let mut from: usize = 0;
    proof {
        reveal_strlit("// HASH: ");
    }
    while starts_at(&cs, from, end, &prefix)
        invariant
            from <= end <= cs@.len(),
            prefix@ == "// HASH: "@,
            prefix@.len() > 0,
            strip_prefixes(first_line(c@), prefix@) == strip_prefixes(cs@.subrange(from as int, end as int), prefix@),
        decreases end - from,
    {
        assert(cs@.subrange(from as int, end as int).skip(prefix@.len() as int) =~= cs@.subrange(
            from + prefix@.len(),
            end as int,
        ));
        from = from + prefix.len();
    }
    let rest = crate::text::string_from_range(&cs, from, end);
    !crate::text::str_equals(rest.as_str(), hash)
}

/// Whether a compiled namespace map changed: its digests before and after
/// compiling differ, or one of them could not be taken.
pub open spec fn mlmap_changed(before: Option<Seq<u8>>, after: Option<Seq<u8>>) -> bool {
    match (before, after) {
        (Some(d), Some(a)) => d != a,
        _ => true,
    }
}

fn bytes_equal(a: &Vec<u8>, b: &Vec<u8>) -> (r: bool)
    ensures
        r == (a@ == b@),
{
    if a.len() != b.len() {
        return false;
    }
    let mut i: usize = 0;
    while i < a.len()
        invariant
            a@.len() == b@.len(),
            i <= a@.len(),
            forall|j: int| 0 <= j < i ==> a@[j] == b@[j],
        decreases a@.len() - i,
    {
        if a[i] != b[i] {
            return false;
        }
        i = i + 1;
    }
    assert(a@ =~= b@);
    true
}

pub fn is_mlmap_changed(before: &Option<Vec<u8>>, after: &Option<Vec<u8>>) -> (r: bool)
    ensures
        r == mlmap_changed(
            match before {
                Some(d) => Some(d@),
                None => None,
            },
            match after {
                Some(a) => Some(a@),
                None => None,
            },
        ),
{
    match (before, after) {
        (Some(digest), Some(digest_after)) => !bytes_equal(digest, digest_after),
        _ => true,
    }
}

/// The ppx arguments depend on the entries only through their texts.
proof fn lemma_ppx_args_by_text(
    node_modules_dir: Seq<char>,
    package_name: Seq<char>,
    xs: Seq<OneOrMore<String>>,
    ys: Seq<OneOrMore<String>>,
)
    requires
        xs.map_values(|x: OneOrMore<String>| flag_entry(x)) == ys.map_values(
            |y: OneOrMore<String>| flag_entry(y),
        ),
    ensures
        ppx_args(node_modules_dir, package_name, xs) == ppx_args(node_modules_dir, package_name, ys),
    decreases xs.len(),
{
    assert(xs.len() == xs.map_values(|x: OneOrMore<String>| flag_entry(x)).len());
    assert(ys.len() == ys.map_values(|y: OneOrMore<String>| flag_entry(y)).len());
    if xs.len() > 0 {
        let n = xs.len() - 1;
        assert(xs.drop_last().map_values(|x: OneOrMore<String>| flag_entry(x)) =~= xs.map_values(
            |x: OneOrMore<String>| flag_entry(x),
        ).drop_last());
        assert(ys.drop_last().map_values(|y: OneOrMore<String>| flag_entry(y)) =~= ys.map_values(
            |y: OneOrMore<String>| flag_entry(y),
        ).drop_last());
        lemma_ppx_args_by_text(node_modules_dir, package_name, xs.drop_last(), ys.drop_last());
        assert(xs.map_values(|x: OneOrMore<String>| flag_entry(x))[n] == flag_entry(xs[n]));
        assert(ys.map_values(|y: OneOrMore<String>| flag_entry(y))[n] == flag_entry(ys[n]));
        assert(flag_entry(xs[n]) == flag_entry(ys[n]));
        match (xs[n], ys[n]) {
            (OneOrMore::Multiple(a), OneOrMore::Multiple(b)) => {
                assert(a.deep_view() == b.deep_view());
                assert(a.deep_view().len() == a@.len());
                assert(b.deep_view().len() == b@.len());
                if a@.len() > 0 {
                    assert(a.deep_view()[0] == a@[0]@);
                    assert(b.deep_view()[0] == b@[0]@);
                }
            },
            _ => {},
        }
    }
}

/// The AST file of a source file, and the arguments that make the compiler
/// write it: the version, the ppx preprocessors that the file needs (looked up
/// under the workspace's `node_modules` when there is a workspace), the JSX and
/// uncurried settings of the root package, the package's own compiler flags,
/// the output, the file (seen from the build folder), and the flags of the
/// embed generators.
pub open spec fn parser_arguments(
    config: Config,
    root_config: Config,
    filename: Seq<char>,
    version: Seq<char>,
    workspace_root: Option<Seq<char>>,
    root_path: Seq<char>,
    contents: Seq<char>,
    bisect_enabled: bool,
    embed_flags: Seq<Seq<char>>,
) -> (Seq<char>, Seq<Seq<char>>) {
    let ast_path = crate::paths::file_stem(filename).unwrap() + ast_extension(filename);
    let node_modules = match workspace_root {
        Some(w) => w + "/node_modules"@,
        None => root_path + "/node_modules"@,
    };
    let ppx = match config.ppx_flags {
        None => Seq::empty(),
        Some(xs) => ppx_args(node_modules, config.name@, kept_entries(xs@, contents, bisect_enabled)),
    };
    (
        ast_path,
        seq!["-bs-v"@, version] + ppx + jsx_args(root_config.reason, root_config.jsx) + jsx_module_args(
            root_config.jsx,
        ) + jsx_mode_args(root_config.jsx) + uncurried_args(root_config.uncurried, version)
            + flattened_flags(config.bsc_flags) + seq![
            "-absname"@,
            "-bs-ast"@,
            "-o"@,
            ast_path,
            "../../"@ + filename,
        ] + embed_flags,
    )
}

/// The AST path and parser arguments for a source file (see
/// `parser_arguments`). `bisect_enabled` says whether coverage is switched on;
/// `embed_flags` are the compiler flags for the package's embed generators.
/// The file must have a name with an extension, each ppx list must name its
/// ppx, and the root package's JSX version must be supported.
pub fn parser_args(
    config: &Config,
    root_config: &Config,
    filename: &str,
    version: &str,
    workspace_root: &Option<String>,
    root_path: &str,
    contents: &str,
    bisect_enabled: bool,
    embed_flags: &Vec<String>,
) -> (r: (String, Vec<String>))
    requires
        crate::paths::file_name(filename@) is Some,
        crate::paths::extension(filename@) is Some,
        config.ppx_flags matches Some(xs) ==> entries_named(xs@),
        crate::config::supported_jsx(root_config.jsx),
    ensures
        (r.0@, r.1.deep_view()) == parser_arguments(
            *config,
            *root_config,
            filename@,
            version@,
            workspace_root.deep_view(),
            root_path@,
            contents@,
            bisect_enabled,
            embed_flags.deep_view(),
        ),
{
    let ast_extension = path_to_ast_extension(filename);
    let mut ast_path = crate::helpers::get_basename(filename);
    ast_path.append(ast_extension.as_str());
    let node_modules = match workspace_root {
        Some(workspace_root) => {
            let mut d = workspace_root.clone();
            d.append("/node_modules");
            d
        },
        None => {
            let mut d = root_path.to_owned();
            d.append("/node_modules");
            d
        },
    };
    let filtered = filter_ppx_flags(&config.ppx_flags, contents, bisect_enabled);
    let ppx_flags = crate::config::flatten_ppx_flags(&node_modules, &filtered, &config.name);
    proof {
        if config.ppx_flags is Some && filtered is Some {
            lemma_ppx_args_by_text(
                node_modules@,
                config.name@,
                (filtered->Some_0)@,
                kept_entries((config.ppx_flags->Some_0)@, contents@, bisect_enabled),
            );
        }
    }
    let jsx_args = root_config.get_jsx_args();
    let jsx_module_args = root_config.get_jsx_module_args();
    let jsx_mode_args = root_config.get_jsx_mode_args();
    let uncurried_args = root_config.get_uncurried_args(version);
    let bsc_flags = crate::config::flatten_flags(&config.bsc_flags);
    let mut file = "../../".to_owned();
    file.append(filename);
    let mut args: Vec<String> = Vec::new();
    args.push("-bs-v".to_owned());
    args.push(version.to_owned());
    crate::text::extend_strings(&mut args, &ppx_flags);
    crate::text::extend_strings(&mut args, &jsx_args);
    crate::text::extend_strings(&mut args, &jsx_module_args);
    crate::text::extend_strings(&mut args, &jsx_mode_args);
    crate::text::extend_strings(&mut args, &uncurried_args);
    crate::text::extend_strings(&mut args, &bsc_flags);
    let ghost before_output = args.deep_view();
    args.push("-absname".to_owned());
    args.push("-bs-ast".to_owned());
    args.push("-o".to_owned());
    args.push(ast_path.clone());
    args.push(file);
    assert(args.deep_view() =~= before_output + seq![
        "-absname"@,
        "-bs-ast"@,
        "-o"@,
        ast_path@,
        "../../"@ + filename@,
    ]);
    crate::text::extend_strings(&mut args, embed_flags);
    let ghost expected = parser_arguments(
        *config,
        *root_config,
        filename@,
        version@,
        workspace_root.deep_view(),
        root_path@,
        contents@,
        bisect_enabled,
        embed_flags.deep_view(),
    );
    assert(ast_path@ == expected.0);
    assert(args.deep_view() =~= expected.1);
    (ast_path, args)
}

/// The outcome of running the parser, from what it printed on its error
/// stream and whether it succeeded: output with letters or digits in it is a
/// warning when the parser succeeded and an error (naming the package)
/// otherwise; other output is ignored.
pub open spec fn parser_outcome(
    ast_path: Seq<char>,
    package_name: Seq<char>,
    stderr: Seq<char>,
    success: bool,
) -> Result<(Seq<char>, Option<Seq<char>>), Seq<char>> {
    if exists|i: int| 0 <= i < stderr.len() && crate::helpers::is_ascii_alphanumeric(#[trigger] stderr[i]) {
        if success {
            Ok((ast_path, Some(stderr)))
        } else {
            Err("Error in "@ + package_name + ":\n"@ + stderr)
        }
    } else {
        Ok((ast_path, None))
    }
}

pub fn ast_result(ast_path: String, package_name: &str, stderr: &str, success: bool) -> (r: Result<(String, Option<String>), String>)
    ensures
        match r {
            Ok((p, w)) => parser_outcome(ast_path@, package_name@, stderr@, success) == Ok::<
                (Seq<char>, Option<Seq<char>>),
                Seq<char>,
            >((p@, w.deep_view())),
            Err(e) => parser_outcome(ast_path@, package_name@, stderr@, success) == Err::<
                (Seq<char>, Option<Seq<char>>),
                Seq<char>,
            >(e@),
        },
{
    if crate::helpers::contains_ascii_characters(stderr) {
        if success {
            Ok((ast_path, Some(stderr.to_owned())))
        } else {
            let mut e = "Error in ".to_owned();
            e.append(package_name);
            e.append(":\n");
            e.append(stderr);
            Err(e)
        }
    } else {
        Ok((ast_path, None))
    }
}

/// Records the parse outcome of a module of the build (see
/// `apply_ast_results`): a module that was parsed again (`is_dirty`) must be
/// compiled again too; a missing module, or a namespace map, records nothing
/// and reports no success.
pub fn record_ast_results(
    modules: &mut ahash::AHashMap<String, Module>,
    module_name: &String,
    ast_result: &Result<(String, Option<String>), String>,
    iast_result: &Result<Option<(String, Option<String>)>, String>,
    is_dirty: bool,
    is_pinned_dep: bool,
) -> (r: ParseReport)
    ensures
        ({
            let before = module_map(*old(modules));
            let after = module_map(*final(modules));
            if !before.contains_key(module_name@) {
                after == before && !r.ok && !r.failed && r.messages@.len() == 0
            } else {
                let m = before[module_name@];
                let n = after[module_name@];
                &&& after.dom() == before.dom()
                &&& forall|k: Seq<char>| k != module_name@ && #[trigger] before.contains_key(k) ==> after[k] == before[k]
                &&& n.compile_dirty == (m.compile_dirty || is_dirty)
                &&& n.package_name == m.package_name && n.deps == m.deps && n.dependents == m.dependents
                &&& n.last_compiled_cmi == m.last_compiled_cmi && n.last_compiled_cmt == m.last_compiled_cmt
                &&& match m.source_type {
                    SourceType::MlMap(map) => n.source_type == SourceType::MlMap(map) && !r.ok && !r.failed
                        && r.messages@.len() == 0,
                    SourceType::SourceFile(sf) => n.source_type matches SourceType::SourceFile(nf) && {
                        &&& (nf.implementation.parse_state, nf.implementation.parse_dirty) == parsed_state(
                            *ast_result,
                            is_pinned_dep,
                        )
                        &&& nf.implementation.path == sf.implementation.path
                        &&& nf.implementation.compile_state == sf.implementation.compile_state
                        &&& nf.implementation.last_modified == sf.implementation.last_modified
                        &&& nf.embeds == sf.embeds
                        &&& sf.interface is None ==> nf.interface is None
                        &&& sf.interface matches Some(i) ==> nf.interface matches Some(j) && (j.parse_state, j.parse_dirty)
                            == interface_after(i, ast_result is Ok, *iast_result, is_pinned_dep) && j.path == i.path
                            && j.compile_state == i.compile_state && j.last_modified == i.last_modified
                        &&& r.ok == (ast_result is Ok && iast_result is Ok)
                        &&& r.failed == (ast_result is Err || iast_result is Err)
                        &&& r.messages.deep_view() == parse_messages(*ast_result, is_pinned_dep) + interface_messages(
                            *iast_result,
                            is_pinned_dep,
                        )
                    },
                }
            }
        }),
{
    match crate::packages::take_module(modules, module_name) {
        None => ParseReport { ok: false, failed: false, messages: Vec::new() },
        Some(mut module) => {
            if is_dirty {
                module.compile_dirty = true;
            }
            let report = match &mut module.source_type {
                SourceType::SourceFile(source_file) => apply_ast_results(
                    source_file,
                    ast_result,
                    iast_result,
                    is_pinned_dep,
                ),
                SourceType::MlMap(_) => ParseReport { ok: false, failed: false, messages: Vec::new() },
            };
            crate::packages::put_module(modules, module_name.clone(), module);
            proof {
                let before = module_map(*old(modules));
                let after = module_map(*modules);
                assert(after.dom() =~= before.dom());
            }
            report
        },
    }
}


/// What the parse step does with a module.
#[derive(Debug)]
pub enum ParseJob {
    /// Parse the module's files again: its implementation, and its interface
    /// when it has one.
    Parse { module_name: String, implementation: String, interface: Option<String> },
    /// Nothing changed: the module keeps the ASTs it has (named after the
    /// files' stems).
    Keep { module_name: String, ast: String, iast: Option<String> },
    /// A namespace map, whose file is generated with its package.
    NamespaceMap { module_name: String },
}

/// The job for module `name`: a module of a source file is parsed again when
/// either of its files is dirty, and otherwise keeps `<stem>.ast` (and
/// `<stem>.iast` for its interface).
pub open spec fn is_job_for(job: ParseJob, name: Seq<char>, m: Module) -> bool {
    match m.source_type {
        SourceType::MlMap(_) => job matches ParseJob::NamespaceMap { module_name } && module_name@ == name,
        SourceType::SourceFile(sf) => if sf.implementation.parse_dirty || (sf.interface matches Some(i) && i.parse_dirty) {
            job matches ParseJob::Parse { module_name, implementation, interface } && module_name@ == name
                && implementation@ == sf.implementation.path@ && interface.deep_view() == (match sf.interface {
                Some(i) => Some(i.path@),
                None => None,
            })
        } else {
            job matches ParseJob::Keep { module_name, ast, iast } && module_name@ == name && ast@
                == crate::paths::file_stem(sf.implementation.path@).unwrap() + ".ast"@ && iast.deep_view() == (
            match sf.interface {
                Some(i) => Some(crate::paths::file_stem(i.path@).unwrap() + ".iast"@),
                None => None,
            })
        },
    }
}

/// Every file of a module of a source file has a file name.
pub open spec fn files_named(m: Module) -> bool {
    match m.source_type {
        SourceType::SourceFile(sf) => crate::paths::file_name(sf.implementation.path@) is Some && (sf.interface matches Some(
            i,
        ) ==> crate::paths::file_name(i.path@) is Some),
        SourceType::MlMap(_) => true,
    }
}

fn stem_with(path: &String, suffix: &str) -> (r: String)
    requires
        crate::paths::file_name(path@) is Some,
    ensures
        r@ == crate::paths::file_stem(path@).unwrap() + suffix@,
{
    let mut r = crate::helpers::get_basename(path.as_str());
    r.append(suffix);
    r
}

/// The job for one module (see `is_job_for`).
pub fn parse_job(module_name: &String, module: &Module) -> (r: ParseJob)
    requires
        files_named(*module),
    ensures
        is_job_for(r, module_name@, *module),
{
    match &module.source_type {
        SourceType::MlMap(_) => ParseJob::NamespaceMap { module_name: module_name.clone() },
        SourceType::SourceFile(sf) => {
            let iface_dirty = match &sf.interface {
                Some(i) => i.parse_dirty,
                None => false,
            };
            if sf.implementation.parse_dirty || iface_dirty {
                ParseJob::Parse {
                    module_name: module_name.clone(),
                    implementation: sf.implementation.path.clone(),
                    interface: match &sf.interface {
                        Some(i) => Some(i.path.clone()),
                        None => None,
                    },
                }
            } else {
                ParseJob::Keep {
                    module_name: module_name.clone(),
                    ast: stem_with(&sf.implementation.path, ".ast"),
                    iast: match &sf.interface {
                        Some(i) => Some(stem_with(&i.path, ".iast")),
                        None => None,
                    },
                }
            }
        },
    }
}

/// `job` is the job of some module of the map.
pub open spec fn job_of_some_module(map: Map<Seq<char>, Module>, job: ParseJob) -> bool {
    exists|k: Seq<char>| map.contains_key(k) && #[trigger] is_job_for(job, k, map[k])
}

/// The job for each module of the build, one per module, in the order the
/// map is walked (which the map does not fix).
pub fn parse_jobs(modules: &ahash::AHashMap<String, Module>) -> (r: Vec<ParseJob>)
    requires
        forall|k: Seq<char>| #[trigger] module_map(*modules).contains_key(k) ==> files_named(module_map(*modules)[k]),
    ensures
        r@.len() == module_map(*modules).dom().len(),
        forall|k: Seq<char>| #[trigger] module_map(*modules).contains_key(k) ==> exists|j: int|
            0 <= j < r@.len() && #[trigger] is_job_for(r@[j], k, module_map(*modules)[k]),
        forall|j: int| 0 <= j < r@.len() ==> job_of_some_module(module_map(*modules), #[trigger] r@[j]),
{
    let ghost map = module_map(*modules);
    let names = crate::packages::module_names(modules);
    let ghost nv = names.deep_view();
    let mut jobs: Vec<ParseJob> = Vec::new();
    let mut k: usize = 0;
    while k < names.len()
        invariant
            map == module_map(*modules),
            nv == names.deep_view(),
            nv.to_set() == map.dom(),
            forall|key: Seq<char>| #[trigger] map.contains_key(key) ==> files_named(map[key]),
            k <= names@.len(),
            jobs@.len() == k,
            forall|j: int| 0 <= j < k ==> #[trigger] is_job_for(jobs@[j], nv[j], map[nv[j]]),
        decreases names@.len() - k,
    {
        assert(nv.to_set().contains(nv[k as int]));
        assert(nv[k as int] == names@[k as int]@);
        match crate::packages::get_module(modules, &names[k]) {
            Some(m) => {
                jobs.push(parse_job(&names[k], m));
            },
            None => {
                assert(false);
            },
        }
        k = k + 1;
    }
    proof {
        nv.unique_seq_to_set();
        assert forall|key: Seq<char>| #[trigger] map.contains_key(key) implies exists|j: int|
            0 <= j < jobs@.len() && #[trigger] is_job_for(jobs@[j], key, map[key]) by {
            assert(nv.to_set().contains(key));
            let j = choose|j: int| 0 <= j < nv.len() && nv[j] == key;
            assert(is_job_for(jobs@[j], nv[j], map[nv[j]]));
        }
        assert forall|j: int| 0 <= j < jobs@.len() implies job_of_some_module(map, #[trigger] jobs@[j]) by {
            assert(nv.to_set().contains(nv[j]));
            assert(map.contains_key(nv[j]) && is_job_for(jobs@[j], nv[j], map[nv[j]]));
        }
        assert(map == module_map(*modules));
    }
    jobs
}


/// Texts one after the other.
pub open spec fn concat_texts(ts: Seq<Seq<char>>) -> Seq<char>
    decreases ts.len(),
{
    if ts.len() == 0 {
        Seq::empty()
    } else {
        concat_texts(ts.drop_last()) + ts.last()
    }
}

/// All the texts of the reports, in order, as one text.
pub open spec fn reports_text(reports: Seq<ParseReport>) -> Seq<char>
    decreases reports.len(),
{
    if reports.len() == 0 {
        Seq::empty()
    } else {
        reports_text(reports.drop_last()) + concat_texts(reports.last().messages.deep_view())
    }
}

/// The outcome of the parse step from the reports of its modules: the texts
/// of all reports, in order, as one text, which is an error when some file
/// did not parse and the output otherwise.
pub fn parse_outcome(reports: &Vec<ParseReport>) -> (r: Result<String, String>)
    ensures
        r is Err <==> exists|i: int| 0 <= i < reports@.len() && #[trigger] reports@[i].failed,
        match r {
            Ok(t) => t@ == reports_text(reports@),
            Err(t) => t@ == reports_text(reports@),
        },
{
    let mut text = String::new();
    let mut failed = false;
    let mut i: usize = 0;
    while i < reports.len()
        invariant
            i <= reports@.len(),
            text@ == reports_text(reports@.take(i as int)),
            failed == exists|k: int| 0 <= k < i && #[trigger] reports@[k].failed,
        decreases reports@.len() - i,
    {
        let ghost t = reports@.take(i + 1);
        assert(t.drop_last() =~= reports@.take(i as int));
        assert(t.last() == reports@[i as int]);
        let mut j: usize = 0;
        let ghost start = text@;
        while j < reports[i].messages.len()
            invariant
                i < reports@.len(),
                j <= reports@[i as int].messages@.len(),
                text@ == start + concat_texts(reports@[i as int].messages.deep_view().take(j as int)),
            decreases reports@[i as int].messages@.len() - j,
        {
            let ghost ms = reports@[i as int].messages.deep_view();
            assert(ms.take(j + 1).drop_last() =~= ms.take(j as int));
            text.append(reports[i].messages[j].as_str());
            assert(text@ =~= start + concat_texts(ms.take(j + 1)));
            j = j + 1;
        }
        assert(reports@[i as int].messages.deep_view().take(j as int) =~= reports@[i as int].messages.deep_view());
        if reports[i].failed {
            failed = true;
        }
        proof {
            if exists|k: int| 0 <= k < i + 1 && #[trigger] reports@[k].failed {
                let k = choose|k: int| 0 <= k < i + 1 && #[trigger] reports@[k].failed;
                if k < i {
                    assert(exists|k: int| 0 <= k < i && #[trigger] reports@[k].failed);
                }
            }
        }
        i = i + 1;
    }
    assert(reports@.take(i as int) =~= reports@);
    if failed {
        Err(text)
    } else {
        Ok(text)
    }
}


/// Which ppxes run where: the coverage ppx exactly when coverage is on; any
/// other ppx exactly when the file uses each of the extensions its name
/// marks it for (`%graphql` for a GraphQL ppx, `@spice` for spice, `%relay`
/// for Relay, `%form` for re-formality), so a ppx marked for none of them
/// always runs.
pub proof fn lemma_ppx_runs_where_used(flag: Seq<char>, contents: Seq<char>, bisect_enabled: bool)
    ensures
        contains(flag, "bisect"@) ==> ppx_wanted(flag, contents, bisect_enabled) == bisect_enabled,
        !contains(flag, "bisect"@) ==> (ppx_wanted(flag, contents, bisect_enabled) <==> {
            &&& (contains(flag, "graphql-ppx"@) || contains(flag, "graphql_ppx"@)) ==> contains(contents, "%graphql"@)
            &&& contains(flag, "spice"@) ==> contains(contents, "@spice"@)
            &&& contains(flag, "rescript-relay"@) ==> contains(contents, "%relay"@)
            &&& contains(flag, "re-formality"@) ==> contains(contents, "%form"@)
        }),
{
}

} // verus!
