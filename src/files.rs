//! The vault's file tree as indented text, and the shapes of the file listing
//! and reading requests.
use vstd::prelude::*;
use crate::text::{chars_of, string_of};

verus! {

/// A file or directory of the vault, with its children.
#[derive(Debug)]
pub struct FileTreeNode {
    pub name: String,
    pub path: String,
    pub is_directory: bool,
    pub size_bytes: Option<u64>,
    pub children: Vec<FileTreeNode>,
}

/// The line of one node: two spaces per level, the name, `/` for a directory.
pub open spec fn node_line(n: FileTreeNode, lvl: nat) -> Seq<char> {
    Seq::new(2 * lvl, |i: int| ' ') + n.name@ + (if n.is_directory {
        seq!['/']
    } else {
        seq![]
    }) + seq!['\n']
}

/// The lines of a list of sibling nodes at level `lvl`, each followed by the
/// lines of its children one level deeper.
pub open spec fn forest_text(ns: Seq<FileTreeNode>, lvl: nat) -> Seq<char>
    decreases ns,
    via forest_text_decreases
{
    if ns.len() == 0 {
        seq![]
    } else {
        node_line(ns[0], lvl) + forest_text(ns[0].children@, lvl + 1) + forest_text(
            ns.subrange(1, ns.len() as int),
            lvl,
        )
    }
}

#[via_fn]
proof fn forest_text_decreases(ns: Seq<FileTreeNode>, lvl: nat) {
    broadcast use vstd::seq::axiom_seq_index_decreases, vstd::seq::axiom_seq_subrange_decreases, vstd::std_specs::vec::axiom_vec_decreases_to_view;
    if ns.len() > 0 {
        assert(decreases_to!(ns => ns[0]));
        assert(decreases_to!(ns[0] => ns[0].children));
        assert(decreases_to!(ns[0].children => ns[0].children@));
        assert(decreases_to!(ns => ns[0].children@));
        assert(decreases_to!(ns => ns.subrange(1, ns.len() as int)));
    }
}

/// The text of the tree under `n`, starting at level `lvl`.
pub open spec fn tree_text(n: FileTreeNode, lvl: nat) -> Seq<char> {
    node_line(n, lvl) + forest_text(n.children@, lvl + 1)
}

fn push_all(out: &mut Vec<char>, s: &Vec<char>)
    ensures
        final(out)@ == old(out)@ + s@,
{
    let ghost base = out@;
    let mut k: usize = 0;
    while k < s.len()
        invariant
            k <= s@.len(),
            out@ == base + s@.take(k as int),
        decreases s@.len() - k,
    {
        out.push(s[k]);
        proof {
            assert(out@ =~= base + s@.take(k + 1));
        }
        k = k + 1;
    }
    proof {
        assert(s@.take(k as int) =~= s@);
    }
}

spec fn spaces(n: nat) -> Seq<char> {
    Seq::new(n, |q: int| ' ')
}

fn forest_chars(ns: &Vec<FileTreeNode>, indent: &Vec<char>, lvl: Ghost<nat>, out: &mut Vec<char>)
    requires
        indent@ == spaces(2 * lvl@),
    ensures
        final(out)@ == old(out)@ + forest_text(ns@, lvl@),
    decreases ns@,
{
    let ghost base = out@;
    let mut deeper = Vec::new();
    push_all(&mut deeper, indent);
    deeper.push(' ');
    deeper.push(' ');
    proof {
        assert(deeper@ =~= spaces(2 * (lvl@ + 1)));
        assert(ns@.subrange(0, ns@.len() as int) =~= ns@);
    }
    let mut k: usize = 0;
    while k < ns.len()
        invariant
            k <= ns@.len(),
            indent@ == spaces(2 * lvl@),
            deeper@ == spaces(2 * (lvl@ + 1)),
            out@ + forest_text(ns@.subrange(k as int, ns@.len() as int), lvl@) == base
                + forest_text(ns@, lvl@),
        decreases ns@.len() - k,
    {
        let n = &ns[k];
        let ghost rest = ns@.subrange(k as int, ns@.len() as int);
        proof {
            assert(rest[0] == *n);
            assert(rest.subrange(1, rest.len() as int) =~= ns@.subrange(k + 1, ns@.len() as int));
        }
        let ghost before = out@;
        push_all(out, indent);
        push_all(out, &chars_of(n.name.as_str()));
        if n.is_directory {
            out.push('/');
        }
        out.push('\n');
        proof {
            assert(out@ =~= before + node_line(*n, lvl@));
        }
        proof {
            broadcast use vstd::seq::axiom_seq_index_decreases, vstd::std_specs::vec::axiom_vec_decreases_to_view;
            assert(decreases_to!(ns@ => ns@[k as int]));
            assert(decreases_to!(ns@[k as int] => ns@[k as int].children));
            assert(decreases_to!(ns@ => n.children));
        }
        forest_chars(&n.children, &deeper, Ghost(lvl@ + 1), out);
        k = k + 1;
        proof {
            assert(out@ + forest_text(ns@.subrange(k as int, ns@.len() as int), lvl@) =~= base
                + forest_text(ns@, lvl@));
        }
    }
    proof {
        assert(ns@.subrange(k as int, ns@.len() as int) =~= seq![]);
        assert(out@ =~= base + forest_text(ns@, lvl@));
    }
}

/// The tree under `node` as indented text, one line per node, directories
/// marked with `/`.
pub fn format_tree_visual(node: &FileTreeNode, indent_level: usize) -> (r: String)
    ensures
        r@ == tree_text(*node, indent_level as nat),
{
    let mut indent: Vec<char> = Vec::new();
    let mut i: usize = 0;
    while i < indent_level
        invariant
            i <= indent_level,
            indent@ == spaces(2 * i as nat),
        decreases indent_level - i,
    {
        indent.push(' ');
        indent.push(' ');
        proof {
            assert(indent@ =~= spaces(2 * (i + 1) as nat));
        }
        i = i + 1;
    }
    let mut out: Vec<char> = Vec::new();
    push_all(&mut out, &indent);
    push_all(&mut out, &chars_of(node.name.as_str()));
    if node.is_directory {
        out.push('/');
    }
    out.push('\n');
    proof {
        assert(out@ =~= node_line(*node, indent_level as nat));
    }
    let mut deeper = Vec::new();
    push_all(&mut deeper, &indent);
    deeper.push(' ');
    deeper.push(' ');
    proof {
        assert(deeper@ =~= spaces(2 * (indent_level as nat + 1)));
    }
    forest_chars(&node.children, &deeper, Ghost(indent_level as nat + 1), &mut out);
    string_of(&out)
}

} // verus!

verus! {

/// How two sibling entries are listed: directories before files, then by name.
pub open spec fn entry_order(a: FileTreeNode, b: FileTreeNode) -> std::cmp::Ordering {
    if a.is_directory && !b.is_directory {
        std::cmp::Ordering::Less
    } else if !a.is_directory && b.is_directory {
        std::cmp::Ordering::Greater
    } else if crate::text::seq_lt(a.name@, b.name@) {
        std::cmp::Ordering::Less
    } else if a.name@ == b.name@ {
        std::cmp::Ordering::Equal
    } else {
        std::cmp::Ordering::Greater
    }
}

/// The listing order of two sibling entries.
pub fn compare_entries(a: &FileTreeNode, b: &FileTreeNode) -> (r: std::cmp::Ordering)
    ensures
        r == entry_order(*a, *b),
{
    if a.is_directory && !b.is_directory {
        return std::cmp::Ordering::Less;
    }
    if !a.is_directory && b.is_directory {
        return std::cmp::Ordering::Greater;
    }
    let x = chars_of(a.name.as_str());
    let y = chars_of(b.name.as_str());
    if crate::text::chars_lt(&x, &y) {
        std::cmp::Ordering::Less
    } else if a.name == b.name {
        std::cmp::Ordering::Equal
    } else {
        std::cmp::Ordering::Greater
    }
}

} // verus!
