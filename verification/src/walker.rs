use vstd::prelude::*;
use crate::error::UsageError;
use crate::names::{
    is_source_name, joined, names_of, source_name, join_path, is_listed, lemma_joined_source_name,
};

verus! {

/// One entry of a directory listing: its base name, and whether it is a
/// directory.
#[derive(Debug)]
pub struct DirEntry {
    pub name: String,
    pub is_dir: bool,
}

/// A `DirEntry` as the contracts see it.
pub struct Listed {
    pub name: Seq<char>,
    pub is_dir: bool,
}

impl View for DirEntry {
    type V = Listed;

    open spec fn view(&self) -> Listed {
        Listed { name: self.name@, is_dir: self.is_dir }
    }
}

/// What came of listing a directory: its entries in the order in which the
/// directory lists them, or the reason why it could not be listed.
#[derive(Debug)]
pub enum Listing {
    Entries(Vec<DirEntry>),
    Unreadable(String),
}

/// A listing as the contracts see it.
pub open spec fn listing_of(entries: Seq<DirEntry>) -> Seq<Listed> {
    entries.map_values(|e: DirEntry| e@)
}

/// What a walk has still to do with a path: report it as a source file, or
/// ask for its listing and go through it.
pub enum Task {
    Report(Seq<char>),
    Descend(Seq<char>),
}

impl Task {
    /// The path that the task is about.
    pub open spec fn path(self) -> Seq<char> {
        match self {
            Task::Report(path) => path,
            Task::Descend(path) => path,
        }
    }
}

/// What an entry of the directory `dir` asks of the walk. A directory with an
/// ignored name asks nothing, nor does a file without the extension of a
/// source file; whether a directory's name has such an extension is not
/// looked at.
pub open spec fn task_for(dir: Seq<char>, entry: Listed, ignored: Seq<Seq<char>>) -> Option<Task> {
    if entry.is_dir {
        if ignored.contains(entry.name) {
            None
        } else {
            Some(Task::Descend(joined(dir, entry.name)))
        }
    } else if is_source_name(entry.name) {
        Some(Task::Report(joined(dir, entry.name)))
    } else {
        None
    }
}

/// The tasks of a whole listing, in its order.
pub open spec fn tasks_for(dir: Seq<char>, listing: Seq<Listed>, ignored: Seq<Seq<char>>) -> Seq<
    Task,
>
    decreases listing.len(),
{
    if listing.len() == 0 {
        Seq::empty()
    } else {
        let rest = tasks_for(dir, listing.drop_first(), ignored);
        match task_for(dir, listing[0], ignored) {
            Some(task) => seq![task] + rest,
            None => rest,
        }
    }
}

/// How many reports stand at the head of `tasks`, before the first directory.
pub open spec fn leading_reports(tasks: Seq<Task>) -> nat
    decreases tasks.len(),
{
    if tasks.len() > 0 && tasks[0] is Report {
        1 + leading_reports(tasks.drop_first())
    } else {
        0
    }
}

/// The paths of `tasks`, in their order.
pub open spec fn paths_of(tasks: Seq<Task>) -> Seq<Seq<char>> {
    tasks.map_values(|t: Task| t.path())
}

/// The state of a walk: the names it ignores, what it has still to do, next
/// task first, and the source files it has found so far.
pub struct WalkState {
    pub ignored: Seq<Seq<char>>,
    pub tasks: Seq<Task>,
    pub found: Seq<Seq<char>>,
}

impl WalkState {
    /// The state before anything was listed: `root` is to be gone through.
    pub open spec fn start(root: Seq<char>, ignored: Seq<Seq<char>>) -> WalkState {
        WalkState { ignored, tasks: seq![Task::Descend(root)], found: Seq::empty() }
    }

    /// A walk rests only where it needs a listing or is finished, and what it
    /// has found or will report has the extension of a source file.
    pub open spec fn wf(self) -> bool {
        &&& self.tasks.len() > 0 ==> self.tasks[0] is Descend
        &&& forall|i: int| 0 <= i < self.found.len() ==> is_source_name(#[trigger] self.found[i])
        &&& forall|i: int|
            0 <= i < self.tasks.len() && self.tasks[i] is Report ==> is_source_name(
                (#[trigger] self.tasks[i]).path(),
            )
    }

    /// The directory whose listing the walk waits for, if it is not finished.
    pub open spec fn waits_for(self) -> Option<Seq<char>> {
        if self.tasks.len() > 0 {
            Some(self.tasks[0].path())
        } else {
            None
        }
    }

    /// The state after the listing of the directory that the walk waited for.
    /// The tasks of the listing take the directory's place; the reports now
    /// at the head are made, up to the next directory. A finished walk stays
    /// as it is.
    pub open spec fn after_listing(self, listing: Seq<Listed>) -> WalkState {
        if self.tasks.len() == 0 {
            self
        } else {
            let all = tasks_for(self.tasks[0].path(), listing, self.ignored)
                + self.tasks.drop_first();
            let made = leading_reports(all) as int;
            WalkState {
                ignored: self.ignored,
                tasks: all.skip(made),
                found: self.found + paths_of(all.take(made)),
            }
        }
    }
}

/// A task as the walker holds it.
enum Item {
    File(String),
    Directory(String),
}

impl View for Item {
    type V = Task;

    closed spec fn view(&self) -> Task {
        match self {
            Item::File(path) => Task::Report(path@),
            Item::Directory(path) => Task::Descend(path@),
        }
    }
}

/// The tasks of a stack of items, the top of the stack first.
spec fn stacked(work: Seq<Item>) -> Seq<Task> {
    Seq::new(work.len(), |i: int| work[work.len() - 1 - i]@)
}

proof fn lemma_stacked_push(work: Seq<Item>, item: Item)
    ensures
        stacked(work.push(item)) == seq![item@] + stacked(work),
{
    assert(stacked(work.push(item)) =~= seq![item@] + stacked(work));
}

proof fn lemma_stacked_pop(work: Seq<Item>)
    requires
        work.len() > 0,
    ensures
        stacked(work.drop_last()) == stacked(work).drop_first(),
        stacked(work)[0] == work.last()@,
{
    assert(stacked(work.drop_last()) =~= stacked(work).drop_first());
}

/// The tasks of a listing from its entry `i` on: the task of that entry, if
/// it has one, and the tasks of the entries behind it.
proof fn lemma_tasks_for_skip(dir: Seq<char>, listing: Seq<Listed>, ignored: Seq<Seq<char>>, i: int)
    requires
        0 <= i < listing.len(),
    ensures
        tasks_for(dir, listing.skip(i), ignored) == match task_for(dir, listing[i], ignored) {
            Some(task) => seq![task] + tasks_for(dir, listing.skip(i + 1), ignored),
            None => tasks_for(dir, listing.skip(i + 1), ignored),
        },
{
    assert(listing.skip(i).drop_first() =~= listing.skip(i + 1));
}

/// Every report among the tasks of a listing is about a source file.
proof fn lemma_tasks_for_report_sources(
    dir: Seq<char>,
    listing: Seq<Listed>,
    ignored: Seq<Seq<char>>,
    i: int,
)
    requires
        0 <= i < tasks_for(dir, listing, ignored).len(),
        tasks_for(dir, listing, ignored)[i] is Report,
    ensures
        is_source_name(tasks_for(dir, listing, ignored)[i].path()),
    decreases listing.len(),
{
    match task_for(dir, listing[0], ignored) {
        Some(task) => {
            if i == 0 {
                lemma_joined_source_name(dir, listing[0].name);
            } else {
                lemma_tasks_for_report_sources(dir, listing.drop_first(), ignored, i - 1);
            }
        },
        None => {
            lemma_tasks_for_report_sources(dir, listing.drop_first(), ignored, i);
        },
    }
}

/// Where `made` reports stand at the head of `tasks` and no report follows
/// them, `made` is the number of leading reports.
pub proof fn lemma_leading_reports(tasks: Seq<Task>, made: int)
    requires
        0 <= made <= tasks.len(),
        forall|j: int| 0 <= j < made ==> tasks[j] is Report,
        made < tasks.len() ==> tasks[made] is Descend,
    ensures
        leading_reports(tasks) == made,
    decreases made,
{
    if made > 0 {
        lemma_leading_reports(tasks.drop_first(), made - 1);
    }
}

/// The leading reports are reports, and what follows them is none.
pub proof fn lemma_leading_reports_end(tasks: Seq<Task>)
    ensures
        leading_reports(tasks) <= tasks.len(),
        forall|j: int| 0 <= j < leading_reports(tasks) ==> tasks[j] is Report,
        leading_reports(tasks) < tasks.len() ==> tasks[leading_reports(tasks) as int] is Descend,
    decreases tasks.len(),
{
    if tasks.len() > 0 && tasks[0] is Report {
        let rest = tasks.drop_first();
        lemma_leading_reports_end(rest);
        assert forall|j: int| 0 <= j < leading_reports(tasks) implies tasks[j] is Report by {
            if j > 0 {
                assert(tasks[j] == rest[j - 1]);
            }
        }
    }
}

/// A listing leaves a walk well formed, whatever it holds.
pub proof fn lemma_after_listing_wf(state: WalkState, listing: Seq<Listed>)
    requires
        state.wf(),
    ensures
        state.after_listing(listing).wf(),
{
    if state.tasks.len() > 0 {
        let dir = state.tasks[0].path();
        let fresh = tasks_for(dir, listing, state.ignored);
        let all = fresh + state.tasks.drop_first();
        let made = leading_reports(all) as int;
        let after = state.after_listing(listing);
        lemma_leading_reports_end(all);
        assert forall|j: int| 0 <= j < all.len() && all[j] is Report implies is_source_name(
            all[j].path(),
        ) by {
            if j < fresh.len() {
                lemma_tasks_for_report_sources(dir, listing, state.ignored, j);
            } else {
                assert(all[j] == state.tasks[j - fresh.len() + 1]);
            }
        }
        assert forall|j: int| 0 <= j < after.found.len() implies is_source_name(
            #[trigger] after.found[j],
        ) by {
            if j >= state.found.len() {
                let k = j - state.found.len();
                assert(after.found[j] == all[k].path());
            }
        }
        assert forall|j: int|
            0 <= j < after.tasks.len() && after.tasks[j] is Report implies is_source_name(
            (#[trigger] after.tasks[j]).path(),
        ) by {
            assert(after.tasks[j] == all[made + j]);
        }
        if after.tasks.len() > 0 {
            assert(after.tasks[0] == all[made]);
        }
    }
}

/// A walk over a directory tree that does not read the tree itself. It says
/// which directory it needs listed next, takes the listing, and collects the
/// source files, leaving out the directories with an ignored name.
pub struct Walker {
    ignored: Vec<String>,
    work: Vec<Item>,
    found: Vec<String>,
}

impl Walker {
    #[verifier::type_invariant]
    spec fn well_formed(self) -> bool {
        self@.wf()
    }
}

impl View for Walker {
    type V = WalkState;

    closed spec fn view(&self) -> WalkState {
        WalkState {
            ignored: names_of(self.ignored@),
            tasks: stacked(self.work@),
            found: names_of(self.found@),
        }
    }
}

/// The directory names that a walk ignores unless it is told otherwise.
pub fn default_ignored() -> (ignored: Vec<String>)
    ensures
        names_of(ignored@) == seq!["node_modules"@, "build"@],
{
    let mut ignored: Vec<String> = Vec::new();
    ignored.push(String::from_str("node_modules"));
    ignored.push(String::from_str("build"));
    assert(names_of(ignored@) =~= seq!["node_modules"@, "build"@]);
    ignored
}

/// Whether the item on top of the stack is a file to report.
fn file_on_top(work: &Vec<Item>) -> (file: bool)
    ensures
        file == (stacked(work@).len() > 0 && stacked(work@)[0] is Report),
{
    let n = work.len();
    if n == 0 {
        return false;
    }
    proof {
        lemma_stacked_pop(work@);
    }
    match &work[n - 1] {
        Item::File(_) => true,
        Item::Directory(_) => false,
    }
}

/// The step of a walk, on its parts.
fn take_listing(
    ignored: &Vec<String>,
    work: &mut Vec<Item>,
    found: &mut Vec<String>,
    entries: &Vec<DirEntry>,
)
    requires
        (WalkState {
            ignored: names_of(ignored@),
            tasks: stacked(old(work)@),
            found: names_of(old(found)@),
        }).wf(),
    ensures
        (WalkState {
            ignored: names_of(ignored@),
            tasks: stacked(final(work)@),
            found: names_of(final(found)@),
        }) == (WalkState {
            ignored: names_of(ignored@),
            tasks: stacked(old(work)@),
            found: names_of(old(found)@),
        }).after_listing(listing_of(entries@)),
        (WalkState {
            ignored: names_of(ignored@),
            tasks: stacked(final(work)@),
            found: names_of(final(found)@),
        }).wf(),
{
    let ghost before = WalkState {
        ignored: names_of(ignored@),
        tasks: stacked(work@),
        found: names_of(found@),
    };
    let ghost listing = listing_of(entries@);
    let dir = match work.pop() {
        Some(Item::Directory(dir)) => dir,
        Some(Item::File(dir)) => {
            proof {
                lemma_stacked_pop(old(work)@);
            }
            assert(false);
            dir
        },
        None => {
            return ;
        },
    };
    proof {
        lemma_stacked_pop(old(work)@);
    }
    let ghost rest = before.tasks.drop_first();
    assert(dir@ == before.tasks[0].path());
    let mut i: usize = entries.len();
    assert(listing.skip(i as int) =~= Seq::empty());
    while i > 0
        invariant
            i <= entries.len(),
            listing == listing_of(entries@),
            stacked(work@) == tasks_for(dir@, listing.skip(i as int), names_of(ignored@)) + rest,
        decreases i,
    {
        i -= 1;
        let entry = &entries[i];
        proof {
            lemma_tasks_for_skip(dir@, listing, names_of(ignored@), i as int);
            assert(listing[i as int] == entry@);
        }
        let ghost stack = work@;
        let ghost tail = tasks_for(dir@, listing.skip(i + 1), names_of(ignored@));
        if entry.is_dir {
            if !is_listed(ignored, &entry.name) {
                let item = Item::Directory(join_path(dir.as_str(), entry.name.as_str()));
                proof {
                    lemma_stacked_push(stack, item);
                    assert(seq![item@] + (tail + rest) =~= (seq![item@] + tail) + rest);
                }
                work.push(item);
            }
        } else if source_name(entry.name.as_str()) {
            let item = Item::File(join_path(dir.as_str(), entry.name.as_str()));
            proof {
                lemma_stacked_push(stack, item);
                assert(seq![item@] + (tail + rest) =~= (seq![item@] + tail) + rest);
            }
            work.push(item);
        }
    }
    assert(listing.skip(0) =~= listing);
    let ghost all = stacked(work@);
    let ghost made: int = 0;
    assert(all.skip(0) =~= all);
    assert(names_of(found@) =~= names_of(found@) + paths_of(all.take(0)));
    while file_on_top(work)
        invariant
            0 <= made <= all.len(),
            stacked(work@) == all.skip(made),
            names_of(found@) == before.found + paths_of(all.take(made)),
            forall|j: int| 0 <= j < made ==> all[j] is Report,
        decreases all.len() - made,
    {
        let ghost stack = work@;
        proof {
            lemma_stacked_pop(stack);
        }
        match work.pop() {
            Some(Item::File(path)) => {
                proof {
                    assert(all.skip(made)[0] == all[made]);
                    assert(all.skip(made).drop_first() =~= all.skip(made + 1));
                    assert(all.take(made + 1) =~= all.take(made).push(all[made]));
                    assert(names_of(found@.push(path)) =~= names_of(found@).push(path@));
                    assert(paths_of(all.take(made + 1)) =~= paths_of(all.take(made)).push(path@));
                    made = made + 1;
                }
                found.push(path);
            },
            _ => {
                assert(false);
            },
        }
    }
    proof {
        if made < all.len() {
            assert(all.skip(made)[0] == all[made]);
        }
        lemma_leading_reports(all, made);
        lemma_after_listing_wf(before, listing);
    }
}

impl Walker {
    /// A walk that starts at `root` and passes over every directory whose base
    /// name is in `ignored`. The root itself is gone through whatever its name.
    pub fn new(root: &str, ignored: Vec<String>) -> (walker: Walker)
        ensures
            walker@ == WalkState::start(root@, names_of(ignored@)),
            walker@.wf(),
    {
        let mut work: Vec<Item> = Vec::new();
        let start = Item::Directory(String::from_str(root));
        proof {
            lemma_stacked_push(Seq::empty(), start);
        }
        work.push(start);
        let found: Vec<String> = Vec::new();
        assert(stacked(work@) =~= seq![Task::Descend(root@)]);
        assert(names_of(found@) =~= Seq::empty());
        Walker { ignored, work, found }
    }

    /// The directory whose listing the walk needs next; `None` when the walk
    /// is finished.
    pub fn next_directory(&self) -> (dir: Option<&String>)
        ensures
            match dir {
                Some(path) => self@.waits_for() == Some(path@),
                None => self@.waits_for() is None,
            },
            self@.wf(),
    {
        proof {
            use_type_invariant(self);
        }
        let n = self.work.len();
        if n == 0 {
            return None;
        }
        proof {
            lemma_stacked_pop(self.work@);
        }
        match &self.work[n - 1] {
            Item::Directory(path) => Some(path),
            Item::File(path) => Some(path),
        }
    }

    /// Takes what came of listing the directory that the walk waits for.
    /// With the entries, the walk reports the source files that it reaches
    /// and rests at the next directory to list. Where the directory could
    /// not be listed the walk is over: it ends with the error, and nothing
    /// of what it had found is handed out. A finished walk waits for no
    /// directory and stays as it is.
    pub fn supply_listing(self, listing: Listing) -> (result: Result<Walker, UsageError>)
        ensures
            match listing {
                Listing::Entries(entries) => {
                    &&& result matches Ok(next)
                    &&& next@ == self@.after_listing(listing_of(entries@))
                    &&& next@.wf()
                },
                Listing::Unreadable(why) => match self@.waits_for() {
                    Some(dir) => {
                        &&& result matches Err(UsageError::DirectoryUnreadable { path, reason })
                        &&& path@ == dir
                        &&& reason@ == why@
                    },
                    None => result matches Ok(next) && next@ == self@,
                },
            },
    {
        proof {
            use_type_invariant(&self);
        }
        let Walker { ignored, mut work, mut found } = self;
        match listing {
            Listing::Entries(entries) => {
                take_listing(&ignored, &mut work, &mut found, &entries);
                Ok(Walker { ignored, work, found })
            },
            Listing::Unreadable(reason) => {
                proof {
                    if work.len() > 0 {
                        lemma_stacked_pop(work@);
                    }
                }
                match work.pop() {
                    Some(Item::Directory(path)) => Err(
                        UsageError::DirectoryUnreadable { path, reason },
                    ),
                    Some(Item::File(path)) => Err(UsageError::DirectoryUnreadable { path, reason }),
                    None => Ok(Walker { ignored, work, found }),
                }
            },
        }
    }

    /// Whether the walk passes over a directory with this base name.
    pub fn ignores(&self, name: &String) -> (ignored: bool)
        ensures
            ignored == self@.ignored.contains(name@),
    {
        is_listed(&self.ignored, name)
    }

    /// Whether the walk is finished: no directory is left to list.
    pub fn is_finished(&self) -> (finished: bool)
        ensures
            finished == (self@.tasks.len() == 0),
    {
        self.work.len() == 0
    }

    /// The source files found so far, in the order of the walk. Each has
    /// the extension of a source file.
    pub fn found(&self) -> (files: &Vec<String>)
        ensures
            names_of(files@) == self@.found,
            self@.wf(),
    {
        proof {
            use_type_invariant(self);
        }
        &self.found
    }

    /// Ends the walk and hands out the source files found, in the order of
    /// the walk. Each has the extension of a source file.
    pub fn into_found(self) -> (files: Vec<String>)
        ensures
            names_of(files@) == self@.found,
            self@.wf(),
    {
        proof {
            use_type_invariant(&self);
        }
        self.found
    }
}

} // verus!
