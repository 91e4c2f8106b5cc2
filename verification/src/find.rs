use vstd::prelude::*;
use crate::names::names_of;
use crate::tree::{Entry, Node, nodes_of, files_under};
use crate::walker::{DirEntry, Listing, Walker, listing_of};
use crate::agreement::{
    listing, entered, listings_asked, listings_needed, to_come, lemma_listing_keeps_outcome,
    lemma_listings_needed_append, lemma_listings_needed_entered,
};

verus! {

/// The node of an entry, by its place.
proof fn lemma_nodes_of_index(entries: Seq<Entry>, i: int)
    requires
        0 <= i < entries.len(),
    ensures
        nodes_of(entries).len() == entries.len(),
        nodes_of(entries)[i] == match entries[i] {
            Entry::File(name) => Node::File(name@),
            Entry::Directory(name, inner) => Node::Directory(name@, nodes_of(inner@)),
        },
    decreases entries.len(),
{
    lemma_nodes_of_len(entries);
    if i > 0 {
        lemma_nodes_of_index(entries.drop_first(), i - 1);
    }
}

proof fn lemma_nodes_of_len(entries: Seq<Entry>)
    ensures
        nodes_of(entries).len() == entries.len(),
    decreases entries.len(),
{
    if entries.len() > 0 {
        lemma_nodes_of_len(entries.drop_first());
    }
}

/// The listing of a directory that was read into memory.
fn list_entries(entries: &Vec<Entry>) -> (list: Vec<DirEntry>)
    ensures
        listing_of(list@) == listing(nodes_of(entries@)),
{
    let mut list: Vec<DirEntry> = Vec::new();
    let mut i: usize = 0;
    proof {
        lemma_nodes_of_len(entries@);
    }
    while i < entries.len()
        invariant
            i <= entries.len(),
            nodes_of(entries@).len() == entries.len(),
            listing_of(list@) == listing(nodes_of(entries@)).take(i as int),
        decreases entries.len() - i,
    {
        proof {
            lemma_nodes_of_index(entries@, i as int);
        }
        let entry = match &entries[i] {
            Entry::File(name) => DirEntry { name: name.clone(), is_dir: false },
            Entry::Directory(name, inner) => DirEntry { name: name.clone(), is_dir: true },
        };
        proof {
            let all = listing(nodes_of(entries@));
            assert(entry@ == all[i as int]);
            assert(listing_of(list@.push(entry)) =~= listing_of(list@).push(entry@));
            assert(all.take(i + 1) =~= all.take(i as int).push(all[i as int]));
        }
        list.push(entry);
        i += 1;
    }
    assert(listing(nodes_of(entries@)).take(entries.len() as int) =~= listing(nodes_of(entries@)));
    list
}

/// What the directories on a stack hold, the top of the stack first.
spec fn contents_of(pending: Seq<&Vec<Entry>>) -> Seq<Seq<Node>> {
    Seq::new(pending.len(), |i: int| nodes_of(pending[pending.len() - 1 - i]@))
}

/// What the directories among the nodes from `i` on hold.
proof fn lemma_entered_skip(nodes: Seq<Node>, ignored: Seq<Seq<char>>, i: int)
    requires
        0 <= i < nodes.len(),
    ensures
        entered(nodes.skip(i), ignored) == match nodes[i] {
            Node::File(name) => entered(nodes.skip(i + 1), ignored),
            Node::Directory(name, inner) => if ignored.contains(name) {
                entered(nodes.skip(i + 1), ignored)
            } else {
                seq![inner] + entered(nodes.skip(i + 1), ignored)
            },
        },
{
    assert(nodes.skip(i).drop_first() =~= nodes.skip(i + 1));
}

/// Puts on the stack the directories among `entries` that the walk enters,
/// the first of them on top.
fn push_entered<'a>(pending: &mut Vec<&'a Vec<Entry>>, entries: &'a Vec<Entry>, walker: &Walker)
    ensures
        contents_of(final(pending)@) == entered(nodes_of(entries@), walker@.ignored) + contents_of(
            old(pending)@,
        ),
{
    let ghost nodes = nodes_of(entries@);
    let ghost rest = contents_of(pending@);
    let mut i: usize = entries.len();
    proof {
        lemma_nodes_of_len(entries@);
        assert(nodes.skip(i as int) =~= Seq::empty());
        assert(entered(nodes.skip(i as int), walker@.ignored) + rest =~= rest);
    }
    while i > 0
        invariant
            i <= entries.len(),
            nodes == nodes_of(entries@),
            nodes.len() == entries.len(),
            contents_of(pending@) == entered(nodes.skip(i as int), walker@.ignored) + rest,
        decreases i,
    {
        i -= 1;
        proof {
            lemma_nodes_of_index(entries@, i as int);
            lemma_entered_skip(nodes, walker@.ignored, i as int);
        }
        match &entries[i] {
            Entry::File(name) => {},
            Entry::Directory(name, inner) => {
                if !walker.ignores(name) {
                    proof {
                        let later = entered(nodes.skip(i + 1), walker@.ignored);
                        assert(contents_of(pending@.push(inner)) =~= seq![nodes_of(inner@)]
                            + contents_of(pending@));
                        assert(seq![nodes_of(inner@)] + (later + rest) =~= (seq![nodes_of(inner@)]
                            + later) + rest);
                    }
                    pending.push(inner);
                }
            },
        }
    }
    assert(nodes.skip(0) =~= nodes);
}

/// Finds the source files of a directory tree that was read into memory.
/// `root` is the path of the directory, `entries` what it holds. The result
/// holds the path of every source file that no ignored directory name lies
/// above, depth first, each directory in its listed order: `files_under`.
pub fn find_files(root: &str, entries: &Vec<Entry>, ignored: Vec<String>) -> (files: Vec<String>)
    ensures
        names_of(files@) == files_under(root@, nodes_of(entries@), names_of(ignored@)),
{
    let ghost skipped = names_of(ignored@);
    let ghost all = files_under(root@, nodes_of(entries@), skipped);
    let mut walker = Walker::new(root, ignored);
    let mut pending: Vec<&Vec<Entry>> = Vec::new();
    pending.push(entries);
    proof {
        let state = walker@;
        let contents = contents_of(pending@);
        assert(contents =~= seq![nodes_of(entries@)]);
        assert(state.tasks.drop_first() =~= Seq::empty());
        assert(contents.drop_first() =~= Seq::empty());
        assert(listings_asked(state.tasks.drop_first()) == 0);
        assert(to_come(state.tasks.drop_first(), contents.drop_first(), skipped) =~= Seq::empty());
        assert(state.found + to_come(state.tasks, contents, skipped) =~= all);
    }
    while !walker.is_finished()
        invariant
            walker@.wf(),
            walker@.ignored == skipped,
            contents_of(pending@).len() == listings_asked(walker@.tasks),
            walker@.found + to_come(walker@.tasks, contents_of(pending@), skipped) == all,
        decreases listings_needed(contents_of(pending@), skipped),
    {
        let ghost state = walker@;
        let ghost contents = contents_of(pending@);
        assert(pending.len() > 0);
        let current = pending.pop().unwrap();
        proof {
            assert(contents[0] == nodes_of(current@));
            assert(contents_of(pending@) =~= contents.drop_first());
            lemma_listing_keeps_outcome(state, contents);
            lemma_listings_needed_entered(contents[0], skipped);
            lemma_listings_needed_append(
                entered(contents[0], skipped),
                contents.drop_first(),
                skipped,
            );
        }
        let list = list_entries(current);
        walker = match walker.supply_listing(Listing::Entries(list)) {
            Ok(next) => next,
            Err(_) => {
                assert(false);
                return Vec::new();
            },
        };
        push_entered(&mut pending, current, &walker);
    }
    proof {
        assert(walker@.found + Seq::<Seq<char>>::empty() =~= walker@.found);
    }
    walker.into_found()
}

} // verus!
