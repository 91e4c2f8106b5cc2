use vstd::prelude::*;
use crate::tree::{Node, files_under};
use crate::walker::{
    Listed, Task, WalkState, tasks_for, task_for, leading_reports, paths_of, lemma_after_listing_wf,
};

verus! {

/// A node as a directory lists it.
pub open spec fn listed(node: Node) -> Listed {
    match node {
        Node::File(name) => Listed { name, is_dir: false },
        Node::Directory(name, entries) => Listed { name, is_dir: true },
    }
}

/// The listing of a directory that holds `nodes`.
pub open spec fn listing(nodes: Seq<Node>) -> Seq<Listed> {
    nodes.map_values(|node: Node| listed(node))
}

/// What the directories among `nodes` hold, one by one in their order, the
/// directories with an ignored name left out.
pub open spec fn entered(nodes: Seq<Node>, ignored: Seq<Seq<char>>) -> Seq<Seq<Node>>
    decreases nodes.len(),
{
    if nodes.len() == 0 {
        Seq::empty()
    } else {
        let rest = entered(nodes.drop_first(), ignored);
        match nodes[0] {
            Node::File(name) => rest,
            Node::Directory(name, entries) => if ignored.contains(name) {
                rest
            } else {
                seq![entries] + rest
            },
        }
    }
}

/// How many of `tasks` ask for a listing.
pub open spec fn listings_asked(tasks: Seq<Task>) -> nat
    decreases tasks.len(),
{
    if tasks.len() == 0 {
        0
    } else if tasks[0] is Descend {
        1 + listings_asked(tasks.drop_first())
    } else {
        listings_asked(tasks.drop_first())
    }
}

/// The files that `tasks` will yet bring: a report its path, a directory the
/// source files under it, where `contents` says what the directories hold,
/// one by one in the order of their tasks.
pub open spec fn to_come(tasks: Seq<Task>, contents: Seq<Seq<Node>>, ignored: Seq<Seq<char>>) -> Seq<
    Seq<char>,
>
    decreases tasks.len(),
{
    if tasks.len() == 0 {
        Seq::empty()
    } else {
        match tasks[0] {
            Task::Report(path) => seq![path] + to_come(tasks.drop_first(), contents, ignored),
            Task::Descend(path) => if contents.len() == 0 {
                Seq::empty()
            } else {
                files_under(path, contents[0], ignored) + to_come(
                    tasks.drop_first(),
                    contents.drop_first(),
                    ignored,
                )
            },
        }
    }
}

/// What two runs of tasks bring, one behind the other.
proof fn lemma_to_come_append(
    first: Seq<Task>,
    first_contents: Seq<Seq<Node>>,
    second: Seq<Task>,
    second_contents: Seq<Seq<Node>>,
    ignored: Seq<Seq<char>>,
)
    requires
        first_contents.len() == listings_asked(first),
    ensures
        to_come(first + second, first_contents + second_contents, ignored) == to_come(
            first,
            first_contents,
            ignored,
        ) + to_come(second, second_contents, ignored),
        listings_asked(first + second) == listings_asked(first) + listings_asked(second),
    decreases first.len(),
{
    if first.len() == 0 {
        assert(first + second =~= second);
        assert(first_contents + second_contents =~= second_contents);
    } else {
        assert((first + second).drop_first() =~= first.drop_first() + second);
        match first[0] {
            Task::Report(path) => {
                lemma_to_come_append(
                    first.drop_first(),
                    first_contents,
                    second,
                    second_contents,
                    ignored,
                );
            },
            Task::Descend(path) => {
                assert((first_contents + second_contents).drop_first()
                    =~= first_contents.drop_first() + second_contents);
                lemma_to_come_append(
                    first.drop_first(),
                    first_contents.drop_first(),
                    second,
                    second_contents,
                    ignored,
                );
            },
        }
    }
}

/// The tasks of a directory's listing bring the source files under it.
proof fn lemma_listing_brings_files_under(dir: Seq<char>, nodes: Seq<Node>, ignored: Seq<Seq<char>>)
    ensures
        to_come(tasks_for(dir, listing(nodes), ignored), entered(nodes, ignored), ignored)
            == files_under(dir, nodes, ignored),
        listings_asked(tasks_for(dir, listing(nodes), ignored)) == entered(nodes, ignored).len(),
    decreases nodes.len(),
{
    if nodes.len() > 0 {
        let rest = nodes.drop_first();
        lemma_listing_brings_files_under(dir, rest, ignored);
        assert(listing(nodes).drop_first() =~= listing(rest));
        assert(listing(nodes)[0] == listed(nodes[0]));
        let tasks = tasks_for(dir, listing(nodes), ignored);
        let later = tasks_for(dir, listing(rest), ignored);
        match task_for(dir, listed(nodes[0]), ignored) {
            Some(task) => {
                assert(tasks.drop_first() =~= later);
                if task is Descend {
                    assert(entered(nodes, ignored).drop_first() =~= entered(rest, ignored));
                }
            },
            None => {},
        }
    }
}

/// The reports at the head of `tasks` bring their paths, and what follows
/// them brings the rest.
proof fn lemma_to_come_reports(tasks: Seq<Task>, contents: Seq<Seq<Node>>, ignored: Seq<Seq<char>>)
    ensures
        to_come(tasks, contents, ignored) == paths_of(tasks.take(leading_reports(tasks) as int))
            + to_come(tasks.skip(leading_reports(tasks) as int), contents, ignored),
        listings_asked(tasks.skip(leading_reports(tasks) as int)) == listings_asked(tasks),
        leading_reports(tasks) <= tasks.len(),
    decreases tasks.len(),
{
    let made = leading_reports(tasks) as int;
    if tasks.len() > 0 && tasks[0] is Report {
        let rest = tasks.drop_first();
        lemma_to_come_reports(rest, contents, ignored);
        let later = leading_reports(rest) as int;
        assert(tasks.skip(made) =~= rest.skip(later));
        assert(paths_of(tasks.take(made)) =~= seq![tasks[0].path()] + paths_of(rest.take(later)));
    } else {
        assert(tasks.skip(0) =~= tasks);
        assert(paths_of(tasks.take(0)) =~= Seq::empty());
    }
}

/// One step of a walk that is told the truth. Where `contents` says what the
/// directories hold that the walk has still to list, and the walk is given
/// the listing of the first of them, what it has found and what is yet to
/// come stay the same together; the directories that it has to list now are
/// those that it entered, before those that were left.
pub proof fn lemma_listing_keeps_outcome(state: WalkState, contents: Seq<Seq<Node>>)
    requires
        state.wf(),
        state.tasks.len() > 0,
        contents.len() == listings_asked(state.tasks),
    ensures
        ({
            let next = state.after_listing(listing(contents[0]));
            let next_contents = entered(contents[0], state.ignored) + contents.drop_first();
            &&& next.wf()
            &&& next_contents.len() == listings_asked(next.tasks)
            &&& next.found + to_come(next.tasks, next_contents, state.ignored) == state.found
                + to_come(state.tasks, contents, state.ignored)
        }),
{
    let ignored = state.ignored;
    let dir = state.tasks[0].path();
    let fresh = tasks_for(dir, listing(contents[0]), ignored);
    let rest = state.tasks.drop_first();
    let all = fresh + rest;
    let next = state.after_listing(listing(contents[0]));
    let next_contents = entered(contents[0], ignored) + contents.drop_first();
    lemma_after_listing_wf(state, listing(contents[0]));
    lemma_listing_brings_files_under(dir, contents[0], ignored);
    lemma_to_come_append(fresh, entered(contents[0], ignored), rest, contents.drop_first(), ignored);
    lemma_to_come_reports(all, next_contents, ignored);
    let made = leading_reports(all) as int;
    assert(next.found + to_come(next.tasks, next_contents, ignored) =~= state.found + (paths_of(
        all.take(made),
    ) + to_come(all.skip(made), next_contents, ignored)));
}

/// How many directories a walk lists under a directory that holds `nodes`:
/// those among `nodes` and below them that no ignored name keeps it from.
pub open spec fn directories_under(nodes: Seq<Node>, ignored: Seq<Seq<char>>) -> nat
    decreases nodes,
{
    if nodes.len() == 0 {
        0
    } else {
        let rest = directories_under(nodes.drop_first(), ignored);
        match nodes[0] {
            Node::File(name) => rest,
            Node::Directory(name, entries) => if ignored.contains(name) {
                rest
            } else {
                1 + directories_under(entries, ignored) + rest
            },
        }
    }
}

/// How many listings a walk needs that has still to list the directories
/// whose contents are `contents`.
pub open spec fn listings_needed(contents: Seq<Seq<Node>>, ignored: Seq<Seq<char>>) -> nat
    decreases contents.len(),
{
    if contents.len() == 0 {
        0
    } else {
        1 + directories_under(contents[0], ignored) + listings_needed(
            contents.drop_first(),
            ignored,
        )
    }
}

/// The state of a walk after at most `steps` listings, each the true listing
/// of the directory that the walk waits for: `contents` says what the
/// directories hold that it has still to list.
pub open spec fn walked(state: WalkState, contents: Seq<Seq<Node>>, steps: nat) -> WalkState
    decreases steps,
{
    if steps == 0 || state.tasks.len() == 0 || contents.len() == 0 {
        state
    } else {
        walked(
            state.after_listing(listing(contents[0])),
            entered(contents[0], state.ignored) + contents.drop_first(),
            (steps - 1) as nat,
        )
    }
}

pub proof fn lemma_listings_needed_append(
    first: Seq<Seq<Node>>,
    second: Seq<Seq<Node>>,
    ignored: Seq<Seq<char>>,
)
    ensures
        listings_needed(first + second, ignored) == listings_needed(first, ignored)
            + listings_needed(second, ignored),
    decreases first.len(),
{
    if first.len() == 0 {
        assert(first + second =~= second);
    } else {
        assert((first + second).drop_first() =~= first.drop_first() + second);
        lemma_listings_needed_append(first.drop_first(), second, ignored);
    }
}

pub proof fn lemma_listings_needed_entered(nodes: Seq<Node>, ignored: Seq<Seq<char>>)
    ensures
        listings_needed(entered(nodes, ignored), ignored) == directories_under(nodes, ignored),
    decreases nodes.len(),
{
    if nodes.len() > 0 {
        lemma_listings_needed_entered(nodes.drop_first(), ignored);
        match nodes[0] {
            Node::File(name) => {},
            Node::Directory(name, entries) => {
                if !ignored.contains(name) {
                    assert(entered(nodes, ignored).drop_first() =~= entered(
                        nodes.drop_first(),
                        ignored,
                    ));
                }
            },
        }
    }
}

/// A walk that is told the truth, and given as many listings as it needs,
/// ends with what it had found followed by what was yet to come.
pub proof fn lemma_walk_brings_what_is_to_come(
    state: WalkState,
    contents: Seq<Seq<Node>>,
    steps: nat,
)
    requires
        state.wf(),
        contents.len() == listings_asked(state.tasks),
        steps >= listings_needed(contents, state.ignored),
    ensures
        walked(state, contents, steps).tasks.len() == 0,
        walked(state, contents, steps).found == state.found + to_come(
            state.tasks,
            contents,
            state.ignored,
        ),
    decreases steps,
{
    if state.tasks.len() == 0 {
        assert(state.found + Seq::<Seq<char>>::empty() =~= state.found);
    } else {
        let next = state.after_listing(listing(contents[0]));
        let next_contents = entered(contents[0], state.ignored) + contents.drop_first();
        lemma_listing_keeps_outcome(state, contents);
        lemma_listings_needed_entered(contents[0], state.ignored);
        lemma_listings_needed_append(
            entered(contents[0], state.ignored),
            contents.drop_first(),
            state.ignored,
        );
        lemma_walk_brings_what_is_to_come(next, next_contents, (steps - 1) as nat);
    }
}

/// The walker finds the source files of the tree. Started at `root`, which
/// holds `nodes`, and given the true listing of each directory that it asks
/// for, the walk ends after one listing for the root and one for each
/// directory under it that no ignored name keeps it from; what it has found
/// then is `files_under` the root, in that order.
pub proof fn lemma_walk_finds_files_under(
    root: Seq<char>,
    nodes: Seq<Node>,
    ignored: Seq<Seq<char>>,
    steps: nat,
)
    requires
        steps >= 1 + directories_under(nodes, ignored),
    ensures
        walked(WalkState::start(root, ignored), seq![nodes], steps).tasks.len() == 0,
        walked(WalkState::start(root, ignored), seq![nodes], steps).found == files_under(
            root,
            nodes,
            ignored,
        ),
{
    let state = WalkState::start(root, ignored);
    let contents = seq![nodes];
    assert(state.tasks.drop_first() =~= Seq::empty());
    assert(contents.drop_first() =~= Seq::empty());
    assert(listings_asked(state.tasks) == 1) by {
        assert(listings_asked(state.tasks.drop_first()) == 0);
    }
    assert(listings_needed(contents, ignored) == 1 + directories_under(nodes, ignored)) by {
        assert(listings_needed(contents.drop_first(), ignored) == 0);
    }
    assert(to_come(state.tasks, contents, ignored) =~= files_under(root, nodes, ignored)) by {
        assert(to_come(state.tasks.drop_first(), contents.drop_first(), ignored) =~= Seq::empty());
    }
    lemma_walk_brings_what_is_to_come(state, contents, steps);
    assert(state.found + files_under(root, nodes, ignored) =~= files_under(root, nodes, ignored));
}

} // verus!
