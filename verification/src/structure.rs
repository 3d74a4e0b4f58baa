//! A folder tree as read from disk, and the way it is printed.
use vstd::prelude::*;
use crate::text::join_with;

verus! {

/// A file (by name), or a folder (by path) with what it holds. The file
/// metadata that a read gathers stays with the reader.
#[derive(Debug)]
pub enum Structure {
    File(String),
    Dir(String, Box<Vec<Structure>>),
}

/// `depth` dashes.
pub open spec fn dashes(depth: nat) -> Seq<char> {
    Seq::new(depth, |i: int| '-')
}

/// The printed tree: each entry on a line of its own, indented by one dash
/// per level; a folder's line is followed by those of its entries.
pub open spec fn structure_text(s: Structure, depth: nat) -> Seq<char>
    decreases s, 0int,
{
    match s {
        Structure::File(name) => dashes(depth) + name@,
        Structure::Dir(name, children) => dashes(depth) + name@ + seq!['\n'] + join_with(
            children_text((*children)@, depth + 1),
            seq!['\n'],
        ),
    }
}

pub open spec fn children_text(children: Seq<Structure>, depth: nat) -> Seq<Seq<char>>
    decreases children, 1int,
{
    if children.len() == 0 {
        Seq::empty()
    } else {
        children_text(children.drop_last(), depth).push(structure_text(children.last(), depth))
    }
}

fn dash_line(depth: usize, name: &String) -> (r: String)
    ensures
        r@ == dashes(depth as nat) + name@,
{
    let mut r = String::new();
    let mut i: usize = 0;
    while i < depth
        invariant
            i <= depth,
            r@ == dashes(i as nat),
        decreases depth - i,
    {
        r.push('-');
        i = i + 1;
        assert(r@ =~= dashes(i as nat));
    }
    r.append(name.as_str());
    r
}

pub fn print_rec(elem: &Structure, depth: usize) -> (r: String)
    requires
        depth < usize::MAX,
        structure_depth(*elem) + depth < usize::MAX,
    ensures
        r@ == structure_text(*elem, depth as nat),
    decreases *elem,
{
    match elem {
        Structure::File(name) => dash_line(depth, name),
        Structure::Dir(name, dir) => {
            let mut s = dash_line(depth, name);
            s.push('\n');
            let mut parts: Vec<String> = Vec::new();
            let mut i: usize = 0;
            assert((**dir)@.take(0) =~= Seq::<Structure>::empty());
            while i < dir.len()
                invariant
                    *elem == Structure::Dir(*name, *dir),
                    structure_depth(*elem) + depth < usize::MAX,
                    i <= (**dir)@.len(),
                    parts.deep_view() == children_text((**dir)@.take(i as int), (depth + 1) as nat),
                decreases (**dir)@.len() - i,
            {
                assert((**dir)@.take(i + 1).drop_last() =~= (**dir)@.take(i as int));
                proof {
                    broadcast use vstd::std_specs::vec::axiom_vec_index_decreases;
                    assert(decreases_to!(*elem => elem->Dir_1));
                    assert(decreases_to!(**dir => dir[i as int]));
                    lemma_child_depth(*elem, i as int);
                }
                let ghost before = parts.deep_view();
                parts.push(print_rec(&dir[i], depth + 1));
                assert(parts.deep_view() =~= before.push(structure_text((**dir)@[i as int], (depth + 1) as nat)));
                i = i + 1;
            }
            assert((**dir)@.take(i as int) =~= (**dir)@);
            let rest = crate::text::join_strings(&parts, "\n");
            proof {
                reveal_strlit("\n");
                assert("\n"@ =~= seq!['\n']);
            }
            s.append(rest.as_str());
            assert(s@ =~= structure_text(*elem, depth as nat));
            s
        },
    }
}

/// How deep the tree goes: 0 for a file, one more than its deepest entry for a
/// folder.
pub open spec fn structure_depth(s: Structure) -> nat
    decreases s, 0int,
{
    match s {
        Structure::File(_) => 0,
        Structure::Dir(_, children) => 1 + children_depth((*children)@),
    }
}

pub open spec fn children_depth(children: Seq<Structure>) -> nat
    decreases children, 1int,
{
    if children.len() == 0 {
        0
    } else {
        let a = children_depth(children.drop_last());
        let b = structure_depth(children.last());
        if a > b { a } else { b }
    }
}

proof fn lemma_children_depth(children: Seq<Structure>, i: int)
    requires
        0 <= i < children.len(),
    ensures
        structure_depth(children[i]) <= children_depth(children),
    decreases children.len(),
{
    if i < children.len() - 1 {
        lemma_children_depth(children.drop_last(), i);
        assert(children.drop_last()[i] == children[i]);
    }
}

proof fn lemma_child_depth(s: Structure, i: int)
    requires
        s is Dir,
        0 <= i < (*s->Dir_1)@.len(),
    ensures
        structure_depth((*s->Dir_1)@[i]) + 1 <= structure_depth(s),
{
    lemma_children_depth((*s->Dir_1)@, i);
}

impl Structure {
    /// The tree as printed (what `Display` shows).
    pub fn to_text(&self) -> (r: String)
        requires
            structure_depth(*self) < usize::MAX,
        ensures
            r@ == structure_text(*self, 0),
    {
        print_rec(self, 0)
    }
}

} // verus!
