//! The contents of a package's `rescript.json` / `bsconfig.json`, and the
//! compiler flags and names derived from it.
use vstd::prelude::*;
use crate::packages::{self, Namespace, NamespaceModel, namespace_model};
use crate::text::{signed_decimal, parse_unsigned, first_index, IntErrorKind};
use crate::case::{spec_pascal_case, spec_upper_flat_case};

verus! {

#[derive(Debug, Clone)]
pub enum OneOrMore<T> {
    Multiple(Vec<T>),
    Single(T),
}

#[derive(Debug, PartialEq, Eq, Hash)]
pub enum Subdirs {
    Qualified(Vec<Source>),
    Recurse(bool),
}

#[derive(Debug, PartialEq, Eq, Hash)]
pub struct PackageSource {
    pub dir: String,
    pub subdirs: Option<Subdirs>,
    pub type_: Option<String>,
}

#[derive(Debug, PartialEq, Eq, Hash)]
pub enum Source {
    Shorthand(String),
    Qualified(PackageSource),
}

/// A source entry as text.
pub enum SourceModel {
    Shorthand(Seq<char>),
    Qualified(PackageSourceModel),
}

/// A source folder as text.
pub struct PackageSourceModel {
    pub dir: Seq<char>,
    pub subdirs: Option<SubdirsModel>,
    pub type_: Option<Seq<char>>,
}

/// The sub folders of a source folder as text.
pub enum SubdirsModel {
    Qualified(Seq<SourceModel>),
    Recurse(bool),
}

pub open spec fn source_model(s: Source) -> SourceModel
    decreases s,
{
    match s {
        Source::Shorthand(d) => SourceModel::Shorthand(d@),
        Source::Qualified(ps) => SourceModel::Qualified(package_source_model(ps)),
    }
}

pub open spec fn package_source_model(ps: PackageSource) -> PackageSourceModel
    decreases ps,
{
    PackageSourceModel {
        dir: ps.dir@,
        subdirs: match ps.subdirs {
            Some(sd) => Some(subdirs_model(sd)),
            None => None,
        },
        type_: ps.type_.deep_view(),
    }
}

pub open spec fn subdirs_model(sd: Subdirs) -> SubdirsModel
    decreases sd,
{
    match sd {
        Subdirs::Qualified(v) => SubdirsModel::Qualified(sources_model(v@)),
        Subdirs::Recurse(b) => SubdirsModel::Recurse(b),
    }
}

pub open spec fn sources_model(v: Seq<Source>) -> Seq<SourceModel>
    decreases v,
{
    if v.len() == 0 {
        Seq::empty()
    } else {
        sources_model(v.drop_last()).push(source_model(v.last()))
    }
}

fn clone_string_option(o: &Option<String>) -> (r: Option<String>)
    ensures
        r.deep_view() == o.deep_view(),
{
    match o {
        Some(s) => Some(s.clone()),
        None => None,
    }
}

fn clone_source(s: &Source) -> (r: Source)
    ensures
        source_model(r) == source_model(*s),
    decreases *s,
{
    match s {
        Source::Shorthand(d) => Source::Shorthand(d.clone()),
        Source::Qualified(ps) => Source::Qualified(clone_package_source(ps)),
    }
}

fn clone_package_source(ps: &PackageSource) -> (r: PackageSource)
    ensures
        package_source_model(r) == package_source_model(*ps),
    decreases *ps,
{
    let subdirs = match &ps.subdirs {
        Some(sd) => Some(clone_subdirs(sd)),
        None => None,
    };
    PackageSource { dir: ps.dir.clone(), subdirs, type_: clone_string_option(&ps.type_) }
}

fn clone_subdirs(sd: &Subdirs) -> (r: Subdirs)
    ensures
        subdirs_model(r) == subdirs_model(*sd),
    decreases *sd,
{
    match sd {
        Subdirs::Qualified(v) => {
            let mut out: Vec<Source> = Vec::new();
            let mut i: usize = 0;
            while i < v.len()
                invariant
                    *sd == Subdirs::Qualified(*v),
                    i <= v@.len(),
                    sources_model(out@) == sources_model(v@.take(i as int)),
                decreases v@.len() - i,
            {
                assert(v@.take(i + 1).drop_last() =~= v@.take(i as int));
                let ghost before = out@;
                proof {
                    broadcast use vstd::std_specs::vec::axiom_vec_index_decreases;
                    assert(decreases_to!(*sd => (*sd)->Qualified_0));
                    assert(decreases_to!(*v => v[i as int]));
                }
                out.push(clone_source(&v[i]));
                assert(out@.drop_last() =~= before);
                i = i + 1;
            }
            assert(v@.take(i as int) =~= v@);
            Subdirs::Qualified(out)
        },
        Subdirs::Recurse(b) => Subdirs::Recurse(*b),
    }
}

/// `Path::join`: an absolute `dir` replaces the base; otherwise `dir` is
/// appended, after a `/` unless the base is empty or already ends with one.
pub open spec fn path_join(base: Seq<char>, dir: Seq<char>) -> Seq<char> {
    if crate::paths::has_root(dir) {
        dir
    } else if base.len() > 0 && base.last() != '/' {
        base + seq!['/'] + dir
    } else {
        base + dir
    }
}

/// `Path::join` (see `path_join`).
pub fn join_path(base: &str, dir: &str) -> (r: String)
    ensures
        r@ == path_join(base@, dir@),
{
    let d = crate::text::chars_of(dir);
    if d.len() > 0 && d[0] == '/' {
        return dir.to_owned();
    }
    let b = crate::text::chars_of(base);
    let mut r = base.to_owned();
    if b.len() > 0 && b[b.len() - 1] != '/' {
        r.push('/');
    }
    r.append(dir);
    r
}

/// The folder of a source entry, under `sub_path` when given.
pub open spec fn folder_under(sub_path: Option<Seq<char>>, dir: Seq<char>) -> Seq<char> {
    match sub_path {
        Some(p) => path_join(p, dir),
        None => dir,
    }
}

fn folder_under_exec(sub_path: &Option<String>, dir: &String) -> (r: String)
    ensures
        r@ == folder_under(sub_path.deep_view(), dir@),
{
    match sub_path {
        Some(p) => join_path(p.as_str(), dir.as_str()),
        None => dir.clone(),
    }
}

/// The type (such as `dev`) that a source entry declares.
pub open spec fn source_type(s: SourceModel) -> Option<Seq<char>> {
    match s {
        SourceModel::Shorthand(_) => None,
        SourceModel::Qualified(ps) => ps.type_,
    }
}

/// A source entry with its type replaced; a shorthand entry becomes a qualified
/// one only when a type is given.
pub open spec fn with_source_type(s: SourceModel, type_: Option<Seq<char>>) -> SourceModel {
    match (s, type_) {
        (SourceModel::Shorthand(dir), Some(t)) => SourceModel::Qualified(
            PackageSourceModel { dir, subdirs: None, type_: Some(t) },
        ),
        (SourceModel::Qualified(ps), t) => SourceModel::Qualified(
            PackageSourceModel { type_: t, ..ps },
        ),
        (s, _) => s,
    }
}

/// A source entry as one folder: its directory (under `sub_path`), its type,
/// and its sub folders only when they are a plain recurse flag.
pub open spec fn qualified_without_children(s: SourceModel, sub_path: Option<Seq<char>>) -> PackageSourceModel {
    match s {
        SourceModel::Shorthand(dir) => PackageSourceModel {
            dir: folder_under(sub_path, dir),
            subdirs: None,
            type_: None,
        },
        SourceModel::Qualified(ps) => PackageSourceModel {
            dir: folder_under(sub_path, ps.dir),
            subdirs: match ps.subdirs {
                Some(SubdirsModel::Recurse(b)) => Some(SubdirsModel::Recurse(b)),
                _ => None,
            },
            type_: ps.type_,
        },
    }
}

impl Source {
    /// When reading, we should propagate the sources all the way through the tree
    pub fn get_type(&self) -> (r: Option<String>)
        ensures
            r.deep_view() == source_type(source_model(*self)),
    {
        match self {
            Source::Shorthand(_) => None,
            Source::Qualified(PackageSource { type_, .. }) => clone_string_option(type_),
        }
    }

    pub fn set_type(&self, type_: Option<String>) -> (r: Source)
        ensures
            source_model(r) == with_source_type(source_model(*self), type_.deep_view()),
    {
        match (self, type_) {
            (Source::Shorthand(dir), Some(type_)) => Source::Qualified(
                PackageSource { dir: dir.clone(), subdirs: None, type_: Some(type_) },
            ),
            (Source::Qualified(package_source), type_) => {
                let copy = clone_package_source(package_source);
                Source::Qualified(PackageSource { type_, ..copy })
            },
            (source, _) => clone_source(source),
        }
    }

    /// `to_qualified_without_children` takes a tree like structure of dependencies, coming in from
    /// `bsconfig`, and turns it into a flat list. The main thing we extract here are the source
    /// folders, and optional subdirs, where potentially, the subdirs recurse or not.
    pub fn to_qualified_without_children(&self, sub_path: Option<String>) -> (r: PackageSource)
        ensures
            package_source_model(r) == qualified_without_children(
                source_model(*self),
                sub_path.deep_view(),
            ),
    {
        match self {
            Source::Shorthand(dir) => PackageSource {
                dir: folder_under_exec(&sub_path, dir),
                subdirs: None,
                type_: self.get_type(),
            },
            Source::Qualified(PackageSource {
                dir,
                type_,
                subdirs: Some(Subdirs::Recurse(should_recurse)),
            }) => PackageSource {
                dir: folder_under_exec(&sub_path, dir),
                subdirs: Some(Subdirs::Recurse(*should_recurse)),
                type_: clone_string_option(type_),
            },
            Source::Qualified(PackageSource { dir, type_, .. }) => PackageSource {
                dir: folder_under_exec(&sub_path, dir),
                subdirs: None,
                type_: clone_string_option(type_),
            },
        }
    }
}

#[derive(Debug, Clone)]
pub struct PackageSpec {
    pub module: String,
    pub in_source: bool,
    pub suffix: Option<String>,
}

impl PackageSpec {
    pub fn get_out_of_source_dir(&self) -> (r: String)
        ensures
            r@ == (if self.module@ == "commonjs"@ { "js"@ } else { "es6"@ }),
    {
        if crate::text::str_equals(self.module.as_str(), "commonjs") {
            "js".to_owned()
        } else {
            "es6".to_owned()
        }
    }

    pub fn is_common_js(&self) -> (r: bool)
        ensures
            r == (self.module@ == "commonjs"@),
    {
        crate::text::str_equals(self.module.as_str(), "commonjs")
    }

    pub fn get_suffix(&self) -> (r: Option<String>)
        ensures
            r.deep_view() == self.suffix.deep_view(),
    {
        clone_string_option(&self.suffix)
    }
}

fn clone_package_spec(spec: &PackageSpec) -> (r: PackageSpec)
    ensures
        r.module@ == spec.module@,
        r.in_source == spec.in_source,
        r.suffix.deep_view() == spec.suffix.deep_view(),
{
    PackageSpec {
        module: spec.module.clone(),
        in_source: spec.in_source,
        suffix: clone_string_option(&spec.suffix),
    }
}

#[derive(Debug, Clone)]
pub enum Error {
    Catchall(bool),
    Qualified(String),
}

#[derive(Debug, Clone)]
pub struct Warnings {
    pub number: Option<String>,
    pub error: Option<Error>,
}

#[derive(Debug, Clone, PartialEq, Eq, Hash)]
pub enum Reason {
    Versioned { react_jsx: i32 },
    Unversioned(bool),
}

#[derive(Debug, Clone)]
pub enum NamespaceConfig {
    Bool(bool),
    String(String),
}

#[derive(Debug, Clone, Copy, Eq, PartialEq)]
pub enum JsxMode {
    Classic,
    Automatic,
}

#[derive(Debug, Clone, Eq, PartialEq)]
pub enum JsxModule {
    React,
    Other(String),
}

#[derive(Debug, Clone, Eq, PartialEq)]
pub struct JsxSpecs {
    pub version: Option<i32>,
    pub module: Option<JsxModule>,
    pub mode: Option<JsxMode>,
    pub v3_dependencies: Option<Vec<String>>,
}

/// We do not care about the internal structure because the gentype config is
/// loaded by bsc: the configuration is kept as its JSON text.
#[derive(Debug, Clone)]
pub struct GenTypeConfig {
    pub json: String,
}

/// # bsconfig.json representation
/// This is tricky, there is a lot of ambiguity. This is probably incomplete.
#[derive(Debug)]
pub struct Config {
    pub name: String,
    // In the case of monorepos, the root source won't necessarily have to have sources. It can
    // just be sources in packages
    pub sources: Option<OneOrMore<Source>>,
    pub package_specs: Option<OneOrMore<PackageSpec>>,
    pub warnings: Option<Warnings>,
    pub suffix: Option<String>,
    pub pinned_dependencies: Option<Vec<String>>,
    pub bs_dependencies: Option<Vec<String>>,
    pub bs_dev_dependencies: Option<Vec<String>>,
    pub ppx_flags: Option<Vec<OneOrMore<String>>>,
    pub bsc_flags: Option<Vec<OneOrMore<String>>>,
    pub reason: Option<Reason>,
    pub namespace: Option<NamespaceConfig>,
    pub jsx: Option<JsxSpecs>,
    pub uncurried: Option<bool>,
    pub gentype_config: Option<GenTypeConfig>,
    // this is a new feature of rewatch, and it's not part of the bsconfig.json spec
    pub namespace_entry: Option<String>,
    // this is a new feature of rewatch, and it's not part of the bsconfig.json spec
    pub allowed_dependents: Option<Vec<String>>,
}

/// The strings of one flag entry.
pub open spec fn flag_strings(x: OneOrMore<String>) -> Seq<Seq<char>> {
    match x {
        OneOrMore::Single(y) => seq![y@],
        OneOrMore::Multiple(ys) => ys.deep_view(),
    }
}

/// All strings of the flag entries, in order.
pub open spec fn flag_entries_strings(xs: Seq<OneOrMore<String>>) -> Seq<Seq<char>>
    decreases xs.len(),
{
    if xs.len() == 0 {
        Seq::empty()
    } else {
        flag_entries_strings(xs.drop_last()) + flag_strings(xs.last())
    }
}

/// Every string split at each space, the pieces in order.
pub open spec fn split_at_spaces(ss: Seq<Seq<char>>) -> Seq<Seq<char>>
    decreases ss.len(),
{
    if ss.len() == 0 {
        Seq::empty()
    } else {
        split_at_spaces(ss.drop_last()) + crate::text::split_on(ss.last(), ' ')
    }
}

/// The flat list of flags: every string of every entry, split at spaces.
pub open spec fn flattened_flags(flags: Option<Vec<OneOrMore<String>>>) -> Seq<Seq<char>> {
    match flags {
        None => Seq::empty(),
        Some(xs) => split_at_spaces(flag_entries_strings(xs@)),
    }
}

fn entry_strings(x: &OneOrMore<String>) -> (r: Vec<String>)
    ensures
        r.deep_view() == flag_strings(*x),
{
    match x {
        OneOrMore::Single(y) => {
            let mut v: Vec<String> = Vec::new();
            v.push(y.clone());
            assert(v.deep_view() =~= seq![y@]);
            v
        },
        OneOrMore::Multiple(ys) => {
            let mut v: Vec<String> = Vec::new();
            crate::text::extend_strings(&mut v, ys);
            assert(v.deep_view() =~= ys.deep_view());
            v
        },
    }
}

/// This flattens string flags
pub fn flatten_flags(flags: &Option<Vec<OneOrMore<String>>>) -> (r: Vec<String>)
    ensures
        r.deep_view() == flattened_flags(*flags),
{
    match flags {
        None => Vec::new(),
        Some(xs) => {
            let mut all: Vec<String> = Vec::new();
            let mut i: usize = 0;
            while i < xs.len()
                invariant
                    i <= xs@.len(),
                    all.deep_view() == flag_entries_strings(xs@.take(i as int)),
                decreases xs@.len() - i,
            {
                assert(xs@.take(i + 1).drop_last() =~= xs@.take(i as int));
                let more = entry_strings(&xs[i]);
                crate::text::extend_strings(&mut all, &more);
                i = i + 1;
            }
            assert(xs@.take(i as int) =~= xs@);
            let mut out: Vec<String> = Vec::new();
            let mut j: usize = 0;
            while j < all.len()
                invariant
                    j <= all@.len(),
                    out.deep_view() == split_at_spaces(all.deep_view().take(j as int)),
                decreases all@.len() - j,
            {
                assert(all.deep_view().take(j + 1).drop_last() =~= all.deep_view().take(j as int));
                let pieces = crate::text::split_on_char(all[j].as_str(), ' ');
                crate::text::extend_strings(&mut out, &pieces);
                j = j + 1;
            }
            assert(all.deep_view().take(j as int) =~= all.deep_view());
            out
        },
    }
}

/// Where a ppx lives: under the package's own folder in `node_modules` when
/// written as a relative path (starting with `.`), else under `node_modules`.
pub open spec fn ppx_location(node_modules_dir: Seq<char>, package_name: Seq<char>, y: Seq<char>) -> Seq<char> {
    if y.len() > 0 && y[0] == '.' {
        node_modules_dir + seq!['/'] + package_name + seq!['/'] + y
    } else {
        node_modules_dir + seq!['/'] + y
    }
}

/// The compiler arguments for one ppx entry: `-ppx <location>`, or, for a ppx
/// with arguments, `-ppx "<location> <arg> ..."`; nothing for an empty list.
pub open spec fn ppx_entry_args(node_modules_dir: Seq<char>, package_name: Seq<char>, x: OneOrMore<String>) -> Seq<Seq<char>> {
    match x {
        OneOrMore::Single(y) => seq!["-ppx"@, ppx_location(node_modules_dir, package_name, y@)],
        OneOrMore::Multiple(ys) => if ys@.len() == 0 {
            Seq::empty()
        } else {
            seq![
                "-ppx"@,
                crate::text::join_with(
                    seq![ppx_location(node_modules_dir, package_name, ys@[0]@)] + ys.deep_view().skip(1),
                    seq![' '],
                ),
            ]
        },
    }
}

pub open spec fn ppx_args(node_modules_dir: Seq<char>, package_name: Seq<char>, xs: Seq<OneOrMore<String>>) -> Seq<Seq<char>>
    decreases xs.len(),
{
    if xs.len() == 0 {
        Seq::empty()
    } else {
        ppx_args(node_modules_dir, package_name, xs.drop_last()) + ppx_entry_args(
            node_modules_dir,
            package_name,
            xs.last(),
        )
    }
}

pub open spec fn flattened_ppx_flags(node_modules_dir: Seq<char>, flags: Option<Vec<OneOrMore<String>>>, package_name: Seq<char>) -> Seq<Seq<char>> {
    match flags {
        None => Seq::empty(),
        Some(xs) => ppx_args(node_modules_dir, package_name, xs@),
    }
}

fn ppx_location_exec(node_modules_dir: &String, package_name: &String, y: &String) -> (r: String)
    ensures
        r@ == ppx_location(node_modules_dir@, package_name@, y@),
{
    let cs = crate::text::chars_of(y.as_str());
    let mut r = node_modules_dir.clone();
    r.push('/');
    if cs.len() > 0 && cs[0] == '.' {
        r.append(package_name.as_str());
        r.push('/');
    }
    r.append(y.as_str());
    r
}

/// Since ppx-flags could be one or more, and could be nested potentiall, this function takes the
/// flags and flattens them outright.
pub fn flatten_ppx_flags(
    node_modules_dir: &String,
    flags: &Option<Vec<OneOrMore<String>>>,
    package_name: &String,
) -> (r: Vec<String>)
    ensures
        r.deep_view() == flattened_ppx_flags(node_modules_dir@, *flags, package_name@),
{
    match flags {
        None => Vec::new(),
        Some(xs) => {
            let mut out: Vec<String> = Vec::new();
            let mut i: usize = 0;
            while i < xs.len()
                invariant
                    i <= xs@.len(),
                    out.deep_view() == ppx_args(node_modules_dir@, package_name@, xs@.take(i as int)),
                decreases xs@.len() - i,
            {
                assert(xs@.take(i + 1).drop_last() =~= xs@.take(i as int));
                let ghost before = out.deep_view();
                match &xs[i] {
                    OneOrMore::Single(y) => {
                        out.push("-ppx".to_owned());
                        out.push(ppx_location_exec(node_modules_dir, package_name, y));
                        assert(out.deep_view() =~= before + ppx_entry_args(
                            node_modules_dir@,
                            package_name@,
                            xs@[i as int],
                        ));
                    },
                    OneOrMore::Multiple(ys) => {
                        if ys.len() > 0 {
                            let mut parts: Vec<String> = Vec::new();
                            parts.push(ppx_location_exec(node_modules_dir, package_name, &ys[0]));
                            let mut k: usize = 1;
                            while k < ys.len()
                                invariant
                                    1 <= k <= ys@.len(),
                                    parts.deep_view() == seq![
                                        ppx_location(node_modules_dir@, package_name@, ys@[0]@),
                                    ] + ys.deep_view().subrange(1, k as int),
                                decreases ys@.len() - k,
                            {
                                let ghost pb = parts.deep_view();
                                parts.push(ys[k].clone());
                                assert(parts.deep_view() =~= pb.push(ys.deep_view()[k as int]));
                                k = k + 1;
                                assert(seq![ppx_location(node_modules_dir@, package_name@, ys@[0]@)]
                                    + ys.deep_view().subrange(1, k as int) =~= pb.push(
                                    ys.deep_view()[k - 1],
                                ));
                            }
                            assert(ys.deep_view().subrange(1, k as int) =~= ys.deep_view().skip(1));
                            out.push("-ppx".to_owned());
                            out.push(crate::text::join_strings(&parts, " "));
                            proof {
                                reveal_strlit(" ");
                                assert(" "@ =~= seq![' ']);
                            }
                            assert(out.deep_view() =~= before + ppx_entry_args(
                                node_modules_dir@,
                                package_name@,
                                xs@[i as int],
                            ));
                        } else {
                            assert(out.deep_view() =~= before + ppx_entry_args(
                                node_modules_dir@,
                                package_name@,
                                xs@[i as int],
                            ));
                        }
                    },
                }
                i = i + 1;
            }
            assert(xs@.take(i as int) =~= xs@);
            out
        },
    }
}

/// The major part of a version: the text before the first `.`.
pub open spec fn version_major(version: Seq<char>) -> Seq<char> {
    match first_index(version, '.') {
        Some(k) => version.take(k),
        None => version,
    }
}

/// Whether the version's major number (read as `usize`) is 11 or more; an error
/// when the major part is not such a number.
pub open spec fn rescript11_or_higher(version: Seq<char>) -> Result<bool, Seq<char>> {
    match parse_unsigned(version_major(version), usize::MAX as int) {
        Ok(major) => Ok(major >= 11),
        Err(_) => Err("Could not parse version"@),
    }
}

pub fn check_if_rescript11_or_higher(version: &str) -> (r: Result<bool, String>)
    ensures
        match r {
            Ok(b) => rescript11_or_higher(version@) == Ok::<bool, Seq<char>>(b),
            Err(e) => rescript11_or_higher(version@) == Err::<bool, Seq<char>>(e@),
        },
{
    let cs = crate::text::chars_of(version);
    assert(cs@.skip(0) =~= cs@);
    let end = match crate::text::find_char_from(&cs, 0, '.') {
        Some(k) => k,
        None => cs.len(),
    };
    let major = crate::text::string_from_range(&cs, 0, end);
    assert(major@ =~= version_major(version@));
    match crate::text::parse_decimal(major.as_str(), usize::MAX as u64) {
        Ok(m) => Ok(m >= 11),
        Err(_) => Err("Could not parse version".to_owned()),
    }
}

/// The ASCII uppercase of `c` (other characters unchanged).
pub open spec fn ascii_upper(c: char) -> char {
    if 'a' <= c && c <= 'z' {
        (c as int - 32) as char
    } else {
        c
    }
}

/// A character that is kept in a namespace name: ASCII letter, digit or `_`.
pub open spec fn is_name_char(c: char) -> bool {
    crate::helpers::is_ascii_alphanumeric(c) || c == '_'
}

/// Reads a package name left to right: name characters are kept, the first one
/// after the start or after a `/` or `-` is upper-cased; `/` and `-` start a new
/// word; every other character is dropped. The flag says whether the next kept
/// character is upper-cased.
pub open spec fn namespace_scan(s: Seq<char>) -> (Seq<char>, bool)
    decreases s.len(),
{
    if s.len() == 0 {
        (Seq::empty(), true)
    } else {
        let (buf, capital) = namespace_scan(s.drop_last());
        let c = s.last();
        if is_name_char(c) {
            (buf.push(if capital { ascii_upper(c) } else { c }), false)
        } else if c == '/' || c == '-' {
            (buf, true)
        } else {
            (buf, capital)
        }
    }
}

/// The namespace derived from a package name, e.g. `@teamwalnut/app` gives
/// `TeamwalnutApp`.
pub open spec fn namespace_of_package(s: Seq<char>) -> Seq<char> {
    namespace_scan(s).0
}

fn to_ascii_upper(c: char) -> (r: char)
    ensures
        r == ascii_upper(c),
{
    if 'a' <= c && c <= 'z' {
        let b: u8 = (c as u32 - 32) as u8;
        b as char
    } else {
        c
    }
}

/// The namespace derived from a package name (see `namespace_of_package`).
/// The name is read byte by byte; bytes of non-ASCII characters match none of
/// the kept or separating characters, so they drop out as the characters do.
pub fn namespace_from_package_name(package_name: &str) -> (r: String)
    ensures
        r@ == namespace_of_package(package_name@),
{
    let cs = crate::text::chars_of(package_name);
    let mut buf = String::new();
    let mut capital = true;
    let mut i: usize = 0;
    assert(package_name@.take(0) =~= Seq::<char>::empty());
    while i < cs.len()
        invariant
            cs@ == package_name@,
            i <= cs@.len(),
            (buf@, capital) == namespace_scan(package_name@.take(i as int)),
        decreases cs@.len() - i,
    {
        assert(package_name@.take(i + 1).drop_last() =~= package_name@.take(i as int));
        let c = cs[i];
        if ('0' <= c && c <= '9') || ('a' <= c && c <= 'z') || ('A' <= c && c <= 'Z') || c == '_' {
            if capital {
                buf.push(to_ascii_upper(c));
            } else {
                buf.push(c);
            }
            capital = false;
        } else if c == '/' || c == '-' {
            capital = true;
        }
        i = i + 1;
    }
    assert(package_name@.take(i as int) =~= package_name@);
    buf
}

/// The namespace that a configuration declares, as text.
pub open spec fn config_namespace(
    name: Seq<char>,
    namespace: Option<NamespaceConfig>,
    namespace_entry: Option<Seq<char>>,
) -> NamespaceModel {
    let from_package = namespace_of_package(name);
    match (namespace, namespace_entry) {
        (Some(NamespaceConfig::Bool(false)), _) => NamespaceModel::NoNamespace,
        (None, _) => NamespaceModel::NoNamespace,
        (Some(NamespaceConfig::Bool(true)), None) => NamespaceModel::Namespace(from_package),
        (Some(NamespaceConfig::Bool(true)), Some(entry)) => NamespaceModel::NamespaceWithEntry {
            namespace: from_package,
            entry,
        },
        (Some(NamespaceConfig::String(s)), None) => if s@ == "true"@ {
            NamespaceModel::Namespace(from_package)
        } else if spec_upper_flat_case(s@) == s@ {
            NamespaceModel::Namespace(s@)
        } else {
            NamespaceModel::Namespace(namespace_of_package(s@))
        },
        (Some(NamespaceConfig::String(s)), Some(entry)) => if s@ == "true"@ {
            NamespaceModel::NamespaceWithEntry { namespace: from_package, entry }
        } else if spec_upper_flat_case(s@) == s@ {
            NamespaceModel::NamespaceWithEntry { namespace: s@, entry }
        } else {
            NamespaceModel::NamespaceWithEntry { namespace: spec_pascal_case(s@), entry }
        },
    }
}

/// The compiler's JSX arguments: the version of the `jsx` section (3 or 4)
/// when it is given; without a `jsx` section, the legacy `reason` setting.
pub open spec fn jsx_args(reason: Option<Reason>, jsx: Option<JsxSpecs>) -> Seq<Seq<char>> {
    match jsx {
        Some(j) => match j.version {
            Some(v) => seq!["-bs-jsx"@, signed_decimal(v as int)],
            None => Seq::empty(),
        },
        None => match reason {
            Some(Reason::Versioned { react_jsx }) => seq!["-bs-jsx"@, signed_decimal(react_jsx as int)],
            Some(Reason::Unversioned(true)) => seq!["-bs-jsx"@],
            _ => Seq::empty(),
        },
    }
}

/// A JSX version that the compiler supports: none given, 3 or 4.
pub open spec fn supported_jsx(jsx: Option<JsxSpecs>) -> bool {
    match jsx {
        Some(j) => match j.version {
            Some(v) => v == 3 || v == 4,
            None => true,
        },
        None => true,
    }
}

pub open spec fn jsx_mode_args(jsx: Option<JsxSpecs>) -> Seq<Seq<char>> {
    match jsx {
        Some(j) => match j.mode {
            Some(JsxMode::Classic) => seq!["-bs-jsx-mode"@, "classic"@],
            Some(JsxMode::Automatic) => seq!["-bs-jsx-mode"@, "automatic"@],
            None => Seq::empty(),
        },
        None => Seq::empty(),
    }
}

pub open spec fn jsx_module_args(jsx: Option<JsxSpecs>) -> Seq<Seq<char>> {
    match jsx {
        Some(j) => match j.module {
            Some(JsxModule::React) => seq!["-bs-jsx-module"@, "react"@],
            Some(JsxModule::Other(m)) => seq!["-bs-jsx-module"@, m@],
            None => Seq::empty(),
        },
        None => Seq::empty(),
    }
}

/// ReScript 11 and later compile uncurried unless the configuration turns it
/// off explicitly; earlier or unreadable versions never do.
pub open spec fn uncurried_args(uncurried: Option<bool>, version: Seq<char>) -> Seq<Seq<char>> {
    match rescript11_or_higher(version) {
        Ok(true) => if uncurried == Some(false) {
            Seq::empty()
        } else {
            seq!["-uncurried"@]
        },
        _ => Seq::empty(),
    }
}

/// The suffix of the compiled files of a package spec: its own, else the
/// configuration's, else `.js`.
pub open spec fn suffix_for(spec_suffix: Option<Seq<char>>, config_suffix: Option<Seq<char>>) -> Seq<char> {
    match spec_suffix {
        Some(s) => s,
        None => match config_suffix {
            Some(s) => s,
            None => ".js"@,
        },
    }
}

fn one_string(s: String) -> (r: Vec<String>)
    ensures
        r.deep_view() == seq![s@],
{
    let mut v: Vec<String> = Vec::new();
    v.push(s);
    assert(v.deep_view() =~= seq![s@]);
    v
}

fn two_strings(a: String, b: String) -> (r: Vec<String>)
    ensures
        r.deep_view() == seq![a@, b@],
{
    let mut v: Vec<String> = Vec::new();
    v.push(a);
    v.push(b);
    assert(v.deep_view() =~= seq![a@, b@]);
    v
}

impl Config {
    pub fn get_namespace(&self) -> (r: Namespace)
        ensures
            namespace_model(r) == config_namespace(
                self.name@,
                self.namespace,
                self.namespace_entry.deep_view(),
            ),
    {
        let namespace_from_package = namespace_from_package_name(self.name.as_str());
        match (self.namespace.as_ref(), self.namespace_entry.as_ref()) {
            (Some(NamespaceConfig::Bool(false)), _) => Namespace::NoNamespace,
            (None, _) => Namespace::NoNamespace,
            (Some(NamespaceConfig::Bool(true)), None) => Namespace::Namespace(namespace_from_package),
            (Some(NamespaceConfig::Bool(true)), Some(entry)) => Namespace::NamespaceWithEntry {
                namespace: namespace_from_package,
                entry: entry.clone(),
            },
            (Some(NamespaceConfig::String(str)), None) => {
                if crate::text::str_equals(str.as_str(), "true") {
                    Namespace::Namespace(namespace_from_package)
                } else if crate::case::is_upper_flat_case(str.as_str()) {
                    Namespace::Namespace(str.clone())
                } else {
                    Namespace::Namespace(namespace_from_package_name(str.as_str()))
                }
            },
            (Some(NamespaceConfig::String(str)), Some(entry)) => {
                if crate::text::str_equals(str.as_str(), "true") {
                    Namespace::NamespaceWithEntry {
                        namespace: namespace_from_package,
                        entry: entry.clone(),
                    }
                } else if crate::case::is_upper_flat_case(str.as_str()) {
                    Namespace::NamespaceWithEntry { namespace: str.clone(), entry: entry.clone() }
                } else {
                    Namespace::NamespaceWithEntry {
                        namespace: crate::case::to_pascal_case(str.as_str()),
                        entry: entry.clone(),
                    }
                }
            },
        }
    }

    /// The JSX arguments; a `jsx` version other than 3 or 4 is not supported.
    pub fn get_jsx_args(&self) -> (r: Vec<String>)
        requires
            supported_jsx(self.jsx),
        ensures
            r.deep_view() == jsx_args(self.reason, self.jsx),
    {
        match (&self.reason, &self.jsx) {
            (_, Some(jsx)) => match jsx.version {
                Some(version) => two_strings("-bs-jsx".to_owned(), crate::text::format_i32(version)),
                None => Vec::new(),
            },
            (Some(Reason::Versioned { react_jsx }), None) => two_strings(
                "-bs-jsx".to_owned(),
                crate::text::format_i32(*react_jsx),
            ),
            (Some(Reason::Unversioned(true)), None) => {
                // If Reason is 'true' - we should default to the latest
                one_string("-bs-jsx".to_owned())
            },
            _ => Vec::new(),
        }
    }

    pub fn get_jsx_mode_args(&self) -> (r: Vec<String>)
        ensures
            r.deep_view() == jsx_mode_args(self.jsx),
    {
        match &self.jsx {
            Some(jsx) => match jsx.mode {
                Some(JsxMode::Classic) => two_strings("-bs-jsx-mode".to_owned(), "classic".to_owned()),
                Some(JsxMode::Automatic) => two_strings(
                    "-bs-jsx-mode".to_owned(),
                    "automatic".to_owned(),
                ),
                None => Vec::new(),
            },
            _ => Vec::new(),
        }
    }

    pub fn get_jsx_module_args(&self) -> (r: Vec<String>)
        ensures
            r.deep_view() == jsx_module_args(self.jsx),
    {
        match &self.jsx {
            Some(jsx) => match &jsx.module {
                Some(JsxModule::React) => two_strings("-bs-jsx-module".to_owned(), "react".to_owned()),
                Some(JsxModule::Other(module)) => two_strings(
                    "-bs-jsx-module".to_owned(),
                    module.clone(),
                ),
                None => Vec::new(),
            },
            _ => Vec::new(),
        }
    }

    pub fn get_uncurried_args(&self, version: &str) -> (r: Vec<String>)
        ensures
            r.deep_view() == uncurried_args(self.uncurried, version@),
    {
        match check_if_rescript11_or_higher(version) {
            Ok(true) => match self.uncurried {
                // v11 is always uncurried except iff explicitly set to false in the root rescript.json
                Some(false) => Vec::new(),
                _ => one_string("-uncurried".to_owned()),
            },
            Ok(false) => Vec::new(),
            Err(_) => Vec::new(),
        }
    }

    pub fn get_gentype_arg(&self) -> (r: Vec<String>)
        ensures
            r.deep_view() == (if self.gentype_config is Some {
                seq!["-bs-gentype"@]
            } else {
                Seq::empty()
            }),
    {
        match &self.gentype_config {
            Some(_) => one_string("-bs-gentype".to_owned()),
            None => Vec::new(),
        }
    }

    /// The package specs; without any, CommonJS in source with `.js` files.
    pub fn get_package_specs(&self) -> (r: Vec<PackageSpec>)
        ensures
            match self.package_specs {
                None => r@.len() == 1 && r@[0].module@ == "commonjs"@ && r@[0].in_source
                    && r@[0].suffix.deep_view() == Some(".js"@),
                Some(OneOrMore::Single(spec)) => r@.len() == 1 && r@[0].module@ == spec.module@
                    && r@[0].in_source == spec.in_source && r@[0].suffix.deep_view()
                    == spec.suffix.deep_view(),
                Some(OneOrMore::Multiple(specs)) => r@.len() == specs@.len() && forall|i: int|
                    0 <= i < specs@.len() ==> {
                        &&& #[trigger] r@[i].module@ == specs@[i].module@
                        &&& r@[i].in_source == specs@[i].in_source
                        &&& r@[i].suffix.deep_view() == specs@[i].suffix.deep_view()
                    },
            },
    {
        match &self.package_specs {
            None => {
                let mut v: Vec<PackageSpec> = Vec::new();
                v.push(
                    PackageSpec {
                        module: "commonjs".to_owned(),
                        in_source: true,
                        suffix: Some(".js".to_owned()),
                    },
                );
                v
            },
            Some(OneOrMore::Single(spec)) => {
                let mut v: Vec<PackageSpec> = Vec::new();
                v.push(clone_package_spec(spec));
                v
            },
            Some(OneOrMore::Multiple(specs)) => {
                let mut v: Vec<PackageSpec> = Vec::new();
                let mut i: usize = 0;
                while i < specs.len()
                    invariant
                        i <= specs@.len(),
                        v@.len() == i,
                        forall|j: int|
                            0 <= j < i ==> {
                                &&& #[trigger] v@[j].module@ == specs@[j].module@
                                &&& v@[j].in_source == specs@[j].in_source
                                &&& v@[j].suffix.deep_view() == specs@[j].suffix.deep_view()
                            },
                    decreases specs@.len() - i,
                {
                    v.push(clone_package_spec(&specs[i]));
                    i = i + 1;
                }
                v
            },
        }
    }

    pub fn get_suffix(&self, spec: &PackageSpec) -> (r: String)
        ensures
            r@ == suffix_for(spec.suffix.deep_view(), self.suffix.deep_view()),
    {
        match spec.get_suffix() {
            Some(s) => s,
            None => match &self.suffix {
                Some(s) => s.clone(),
                None => ".js".to_owned(),
            },
        }
    }
}


/// A configured JSX mode is always passed on to the parser: the mode
/// arguments are `-bs-jsx-mode` and the mode's name (`classic` or
/// `automatic`, so the two modes give different arguments), and without a
/// mode there are none.
pub proof fn lemma_jsx_mode_passed_on(jsx: Option<JsxSpecs>)
    ensures
        (jsx_mode_args(jsx).len() == 0) <==> !(jsx is Some && jsx.unwrap().mode is Some),
        jsx is Some && jsx.unwrap().mode is Some ==> {
            &&& jsx_mode_args(jsx).len() == 2
            &&& jsx_mode_args(jsx)[0] == "-bs-jsx-mode"@
            &&& jsx_mode_args(jsx)[1] == (if jsx.unwrap().mode == Some(JsxMode::Classic) {
                "classic"@
            } else {
                "automatic"@
            })
        },
{
    reveal_strlit("classic");
    reveal_strlit("automatic");
}

/// A configured JSX module is always passed on: the module arguments are
/// `-bs-jsx-module` and the module (`react`, or the name given), and
/// without a module there are none.
pub proof fn lemma_jsx_module_passed_on(jsx: Option<JsxSpecs>)
    ensures
        (jsx_module_args(jsx).len() == 0) <==> !(jsx is Some && jsx.unwrap().module is Some),
        jsx is Some && jsx.unwrap().module is Some ==> {
            &&& jsx_module_args(jsx).len() == 2
            &&& jsx_module_args(jsx)[0] == "-bs-jsx-module"@
            &&& jsx_module_args(jsx)[1] == (match jsx.unwrap().module {
                Some(JsxModule::Other(m)) => m@,
                _ => "react"@,
            })
        },
{
}


/// The JSX version reaches the compiler: a version in the `jsx` section is
/// passed as `-bs-jsx` and that number, and a `jsx` section without one
/// passes nothing; only without a `jsx` section does the legacy `reason`
/// setting count (its version, or a bare `-bs-jsx` for `true`).
pub proof fn lemma_jsx_version_passed_on(reason: Option<Reason>, jsx: Option<JsxSpecs>)
    ensures
        jsx is Some && jsx.unwrap().version is Some ==> jsx_args(reason, jsx) == seq![
            "-bs-jsx"@,
            signed_decimal(jsx.unwrap().version.unwrap() as int),
        ],
        jsx is Some && jsx.unwrap().version is None ==> jsx_args(reason, jsx).len() == 0,
        jsx is None && reason is Some && reason.unwrap() is Versioned ==> jsx_args(reason, jsx) == seq![
            "-bs-jsx"@,
            signed_decimal(reason.unwrap()->react_jsx as int),
        ],
        jsx is None && reason == Some(Reason::Unversioned(true)) ==> jsx_args(reason, jsx) == seq!["-bs-jsx"@],
        jsx is None && (reason is None || reason == Some(Reason::Unversioned(false))) ==> jsx_args(reason, jsx).len()
            == 0,
{
}

/// Uncurried mode is asked for with the single flag `-uncurried`, exactly for
/// ReScript 11 or later when the configuration does not turn it off.
pub proof fn lemma_uncurried_flag(uncurried: Option<bool>, version: Seq<char>)
    ensures
        uncurried_args(uncurried, version).len() <= 1,
        (uncurried_args(uncurried, version) == seq!["-uncurried"@]) <==> (rescript11_or_higher(version) == Ok::<
            bool,
            Seq<char>,
        >(true) && uncurried != Some(false)),
        uncurried_args(uncurried, version).len() == 1 ==> uncurried_args(uncurried, version)[0] == "-uncurried"@,
{
}

/// The suffix of a package spec's output: the spec's own wins over the
/// configuration's, which wins over `.js`.
pub proof fn lemma_suffix_precedence(spec_suffix: Option<Seq<char>>, config_suffix: Option<Seq<char>>)
    ensures
        spec_suffix is Some ==> suffix_for(spec_suffix, config_suffix) == spec_suffix.unwrap(),
        spec_suffix is None && config_suffix is Some ==> suffix_for(spec_suffix, config_suffix) == config_suffix.unwrap(),
        spec_suffix is None && config_suffix is None ==> suffix_for(spec_suffix, config_suffix) == ".js"@,
{
}

} // verus!
