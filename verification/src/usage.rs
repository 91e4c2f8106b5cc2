use vstd::prelude::*;
use crate::error::UsageError;
use crate::matcher::{is_usage, uses_package};

verus! {

/// What came of reading a candidate file: its text, or the reason why it
/// could not be read as text.
#[derive(Debug)]
pub enum Contents {
    Text(String),
    Unreadable(String),
}

/// A candidate file as it was read: its path and what came of reading it.
#[derive(Debug)]
pub struct SourceFile {
    pub path: String,
    pub contents: Contents,
}

/// Whether the file was read and its text uses the package `name`.
pub open spec fn file_uses(file: SourceFile, name: Seq<char>) -> bool {
    file.contents matches Contents::Text(text) && is_usage(text@, name)
}

/// The paths of the files among `files` that use the package `name`, in the
/// order of `files`.
pub open spec fn users_of(files: Seq<SourceFile>, name: Seq<char>) -> Seq<Seq<char>> {
    files.filter(|file: SourceFile| file_uses(file, name)).map_values(
        |file: SourceFile| file.path@,
    )
}

/// `at` is the place of the first file that could not be read.
pub open spec fn first_unreadable(files: Seq<SourceFile>, at: int) -> bool {
    &&& 0 <= at < files.len()
    &&& files[at].contents is Unreadable
    &&& forall|i: int| 0 <= i < at ==> files[i].contents is Text
}

/// All of `files` were read.
pub open spec fn all_read(files: Seq<SourceFile>) -> bool {
    forall|i: int| 0 <= i < files.len() ==> files[i].contents is Text
}

/// The paths of a list of borrowed strings.
pub open spec fn paths_of_refs(paths: Seq<&String>) -> Seq<Seq<char>> {
    paths.map_values(|path: &String| path@)
}

/// Picks from `files` those whose text uses the package, and hands out
/// their paths in the order of `files`; the length of the result is the
/// number of files that use the package. Where a file could not be read
/// there is no result: the first such file is the error, whatever the other
/// files hold.
pub fn filter_files<'a>(files: &'a Vec<SourceFile>, package_name: &str) -> (result: Result<
    Vec<&'a String>,
    UsageError,
>)
    ensures
        match result {
            Ok(using) => {
                &&& all_read(files@)
                &&& paths_of_refs(using@) == users_of(files@, package_name@)
            },
            Err(error) => exists|at: int|
                {
                    &&& first_unreadable(files@, at)
                    &&& error matches UsageError::FileUnreadable { path, reason }
                    &&& path@ == files@[at].path@
                    &&& files@[at].contents matches Contents::Unreadable(why)
                    &&& reason@ == why@
                },
        },
{
    let mut using: Vec<&'a String> = Vec::new();
    let mut i: usize = 0;
    assert(files@.take(0) =~= Seq::empty());
    assert(paths_of_refs(using@) =~= users_of(files@.take(0), package_name@));
    while i < files.len()
        invariant
            i <= files.len(),
            forall|j: int| 0 <= j < i ==> files@[j].contents is Text,
            paths_of_refs(using@) == users_of(files@.take(i as int), package_name@),
        decreases files.len() - i,
    {
        let file = &files[i];
        let ghost uses = |file: SourceFile| file_uses(file, package_name@);
        let ghost before = files@.take(i as int);
        let ghost now = files@.take(i + 1);
        proof {
            reveal(Seq::filter);
            assert(now.drop_last() =~= before);
            assert(now.last() == *file);
        }
        match &file.contents {
            Contents::Text(text) => {
                if uses_package(text.as_str(), package_name) {
                    proof {
                        assert(now.filter(uses) == before.filter(uses).push(*file));
                        assert(paths_of_refs(using@.push(&file.path)) =~= paths_of_refs(
                            using@,
                        ).push(file.path@));
                        assert(users_of(now, package_name@) =~= users_of(
                            before,
                            package_name@,
                        ).push(file.path@));
                    }
                    using.push(&file.path);
                }
            },
            Contents::Unreadable(why) => {
                assert(first_unreadable(files@, i as int));
                return Err(
                    UsageError::FileUnreadable { path: file.path.clone(), reason: why.clone() },
                );
            },
        }
        i += 1;
    }
    assert(files@.take(files.len() as int) =~= files@);
    Ok(using)
}

} // verus!
