use vstd::prelude::*;
use crate::names::{is_source_name, joined, lemma_joined_source_name};

verus! {

/// What a directory holds, as far as a walk can see: files by their name,
/// directories by their name and what they hold in turn, in the order in
/// which the directory lists them.
pub enum Node {
    File(Seq<char>),
    Directory(Seq<char>, Seq<Node>),
}

/// An entry of a directory that was read into memory: a file by its base
/// name, a directory by its base name and its own entries in listed order.
#[derive(Debug)]
pub enum Entry {
    File(String),
    Directory(String, Vec<Entry>),
}

/// The nodes that `entries` stand for.
pub open spec fn nodes_of(entries: Seq<Entry>) -> Seq<Node>
    decreases entries,
{
    if entries.len() == 0 {
        Seq::empty()
    } else {
        let rest = nodes_of(entries.drop_first());
        match entries[0] {
            Entry::File(name) => seq![Node::File(name@)] + rest,
            Entry::Directory(name, inner) => seq![Node::Directory(name@, nodes_of(inner@))] + rest,
        }
    }
}

/// The source files under `dir`, which holds `nodes`: depth first, each
/// directory's entries in their listed order, a file by its path. A directory
/// whose name is in `ignored` is passed over with all that it holds; a file
/// counts if its name is a source name.
pub open spec fn files_under(dir: Seq<char>, nodes: Seq<Node>, ignored: Seq<Seq<char>>) -> Seq<
    Seq<char>,
>
    decreases nodes,
{
    if nodes.len() == 0 {
        Seq::empty()
    } else {
        let rest = files_under(dir, nodes.drop_first(), ignored);
        match nodes[0] {
            Node::File(name) => if is_source_name(name) {
                seq![joined(dir, name)] + rest
            } else {
                rest
            },
            Node::Directory(name, entries) => if ignored.contains(name) {
                rest
            } else {
                files_under(joined(dir, name), entries, ignored) + rest
            },
        }
    }
}

/// `nodes` with every ignored directory emptied, at any depth.
pub open spec fn without_ignored(nodes: Seq<Node>, ignored: Seq<Seq<char>>) -> Seq<Node>
    decreases nodes,
{
    if nodes.len() == 0 {
        Seq::empty()
    } else {
        let rest = without_ignored(nodes.drop_first(), ignored);
        match nodes[0] {
            Node::File(name) => seq![nodes[0]] + rest,
            Node::Directory(name, entries) => if ignored.contains(name) {
                seq![Node::Directory(name, Seq::empty())] + rest
            } else {
                seq![Node::Directory(name, without_ignored(entries, ignored))] + rest
            },
        }
    }
}

/// What stands under an ignored directory, at any depth, is never among the
/// files of a walk: the walk of a tree is the walk of the tree with those
/// directories emptied.
pub proof fn lemma_ignored_directories_hold_nothing(
    dir: Seq<char>,
    nodes: Seq<Node>,
    ignored: Seq<Seq<char>>,
)
    ensures
        files_under(dir, nodes, ignored) == files_under(
            dir,
            without_ignored(nodes, ignored),
            ignored,
        ),
    decreases nodes,
{
    if nodes.len() > 0 {
        let emptied = without_ignored(nodes, ignored);
        let rest = without_ignored(nodes.drop_first(), ignored);
        lemma_ignored_directories_hold_nothing(dir, nodes.drop_first(), ignored);
        assert(emptied.drop_first() =~= rest);
        match nodes[0] {
            Node::File(name) => {},
            Node::Directory(name, entries) => {
                if !ignored.contains(name) {
                    lemma_ignored_directories_hold_nothing(joined(dir, name), entries, ignored);
                }
            },
        }
    }
}

/// Every file of a walk has the extension of a source file.
pub proof fn lemma_files_are_source_files(
    dir: Seq<char>,
    nodes: Seq<Node>,
    ignored: Seq<Seq<char>>,
    i: int,
)
    requires
        0 <= i < files_under(dir, nodes, ignored).len(),
    ensures
        is_source_name(files_under(dir, nodes, ignored)[i]),
    decreases nodes,
{
    let rest = files_under(dir, nodes.drop_first(), ignored);
    match nodes[0] {
        Node::File(name) => {
            if is_source_name(name) {
                if i == 0 {
                    lemma_joined_source_name(dir, name);
                } else {
                    lemma_files_are_source_files(dir, nodes.drop_first(), ignored, i - 1);
                }
            } else {
                lemma_files_are_source_files(dir, nodes.drop_first(), ignored, i);
            }
        },
        Node::Directory(name, entries) => {
            if ignored.contains(name) {
                lemma_files_are_source_files(dir, nodes.drop_first(), ignored, i);
            } else {
                let inner = files_under(joined(dir, name), entries, ignored);
                if i < inner.len() {
                    lemma_files_are_source_files(joined(dir, name), entries, ignored, i);
                } else {
                    lemma_files_are_source_files(dir, nodes.drop_first(), ignored, i - inner.len());
                }
            }
        },
    }
}

} // verus!
