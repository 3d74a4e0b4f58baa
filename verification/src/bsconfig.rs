//! The older `bsconfig.json` format, as the first versions of the build read
//! it, with the flags it yields.
use vstd::prelude::*;
use crate::config::{package_source_model, qualified_without_children, source_model};
pub use crate::config::{Error, OneOrMore, PackageSource, Source, Subdirs, Warnings};

verus! {

/// `to_qualified_without_children` takes a tree like structure of dependencies, coming in from
/// `bsconfig`, and turns it into a flat list. The main thing we extract here are the source
/// folders, and optional subdirs, where potentially, the subdirs recurse or not.
pub fn to_qualified_without_children(s: &Source) -> (r: PackageSource)
    ensures
        package_source_model(r) == qualified_without_children(source_model(*s), None),
{
    s.to_qualified_without_children(None)
}

#[derive(Debug, Clone)]
pub struct PackageSpec {
    pub module: String,
    pub in_source: bool,
}

#[derive(Debug, Clone)]
pub struct Reason {
    pub react_jsx: i32,
}

#[derive(Debug, Clone)]
pub enum Namespace {
    Bool(bool),
    String(String),
}

/// # bsconfig.json representation
/// This is tricky, there is a lot of ambiguity. This is probably incomplete.
#[derive(Debug)]
pub struct T {
    pub name: String,
    pub sources: OneOrMore<Source>,
    pub package_specs: Option<OneOrMore<PackageSpec>>,
    pub warnings: Option<Warnings>,
    pub suffix: Option<String>,
    pub pinned_dependencies: Option<Vec<String>>,
    pub bs_dependencies: Option<Vec<String>>,
    pub ppx_flags: Option<Vec<OneOrMore<String>>>,
    pub bsc_flags: Option<Vec<OneOrMore<String>>>,
    pub reason: Option<Reason>,
    pub namespace: Option<Namespace>,
}

/// This flattens string flags
pub fn flatten_flags(flags: &Option<Vec<OneOrMore<String>>>) -> (r: Vec<String>)
    ensures
        r.deep_view() == crate::config::flattened_flags(*flags),
{
    crate::config::flatten_flags(flags)
}

/// Where a ppx lives: under `node_modules`.
pub open spec fn ppx_path(node_modules_dir: Seq<char>, y: Seq<char>) -> Seq<char> {
    node_modules_dir + seq!['/'] + y
}

/// The compiler arguments for one ppx entry: `-ppx <path>`, or, for a ppx with
/// arguments, `-ppx "<path> <arg> ..."`; nothing for an empty list.
pub open spec fn ppx_entry_args(node_modules_dir: Seq<char>, x: OneOrMore<String>) -> Seq<Seq<char>> {
    match x {
        OneOrMore::Single(y) => seq!["-ppx"@, ppx_path(node_modules_dir, y@)],
        OneOrMore::Multiple(ys) => if ys@.len() == 0 {
            Seq::empty()
        } else {
            seq![
                "-ppx"@,
                crate::text::join_with(
                    seq![ppx_path(node_modules_dir, ys@[0]@)] + ys.deep_view().skip(1),
                    seq![' '],
                ),
            ]
        },
    }
}

pub open spec fn ppx_args(node_modules_dir: Seq<char>, xs: Seq<OneOrMore<String>>) -> Seq<Seq<char>>
    decreases xs.len(),
{
    if xs.len() == 0 {
        Seq::empty()
    } else {
        ppx_args(node_modules_dir, xs.drop_last()) + ppx_entry_args(node_modules_dir, xs.last())
    }
}

pub open spec fn flattened_ppx_flags(node_modules_dir: Seq<char>, flags: Option<Vec<OneOrMore<String>>>) -> Seq<Seq<char>> {
    match flags {
        None => Seq::empty(),
        Some(xs) => ppx_args(node_modules_dir, xs@),
    }
}

fn ppx_path_exec(node_modules_dir: &String, y: &String) -> (r: String)
    ensures
        r@ == ppx_path(node_modules_dir@, y@),
{
    let mut r = node_modules_dir.clone();
    r.push('/');
    r.append(y.as_str());
    r
}

/// Since ppx-flags could be one or more, and could be nested potentiall, this function takes the
/// flags and flattens them outright.
pub fn flatten_ppx_flags(node_modules_dir: &String, flags: &Option<Vec<OneOrMore<String>>>) -> (r: Vec<String>)
    ensures
        r.deep_view() == flattened_ppx_flags(node_modules_dir@, *flags),
{
    match flags {
        None => Vec::new(),
        Some(xs) => {
            let mut out: Vec<String> = Vec::new();
            let mut i: usize = 0;
            while i < xs.len()
                invariant
                    i <= xs@.len(),
                    out.deep_view() == ppx_args(node_modules_dir@, xs@.take(i as int)),
                decreases xs@.len() - i,
            {
                assert(xs@.take(i + 1).drop_last() =~= xs@.take(i as int));
                let ghost before = out.deep_view();
                match &xs[i] {
                    OneOrMore::Single(y) => {
                        out.push("-ppx".to_owned());
                        out.push(ppx_path_exec(node_modules_dir, y));
                        assert(out.deep_view() =~= before + ppx_entry_args(node_modules_dir@, xs@[i as int]));
                    },
                    OneOrMore::Multiple(ys) => {
                        if ys.len() > 0 {
                            let mut parts: Vec<String> = Vec::new();
                            parts.push(ppx_path_exec(node_modules_dir, &ys[0]));
                            let mut k: usize = 1;
                            while k < ys.len()
                                invariant
                                    1 <= k <= ys@.len(),
                                    parts.deep_view() == seq![ppx_path(node_modules_dir@, ys@[0]@)]
                                        + ys.deep_view().subrange(1, k as int),
                                decreases ys@.len() - k,
                            {
                                let ghost pb = parts.deep_view();
                                parts.push(ys[k].clone());
                                assert(parts.deep_view() =~= pb.push(ys.deep_view()[k as int]));
                                k = k + 1;
                                assert(seq![ppx_path(node_modules_dir@, ys@[0]@)] + ys.deep_view().subrange(
                                    1,
                                    k as int,
                                ) =~= pb.push(ys.deep_view()[k - 1]));
                            }
                            assert(ys.deep_view().subrange(1, k as int) =~= ys.deep_view().skip(1));
                            out.push("-ppx".to_owned());
                            out.push(crate::text::join_strings(&parts, " "));
                            proof {
                                reveal_strlit(" ");
                                assert(" "@ =~= seq![' ']);
                            }
                            assert(out.deep_view() =~= before + ppx_entry_args(node_modules_dir@, xs@[i as int]));
                        } else {
                            assert(out.deep_view() =~= before + ppx_entry_args(node_modules_dir@, xs@[i as int]));
                        }
                    },
                }
                i = i + 1;
            }
            assert(xs@.take(i as int) =~= xs@);
            out
        },
    }
}

} // verus!
