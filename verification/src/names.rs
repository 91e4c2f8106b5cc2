use vstd::prelude::*;
use crate::text::{chars_of, word_at, holds_at, lemma_holds_at_index};

verus! {

/// The place of the last `.` in `name`; -1 where it has none.
pub open spec fn last_dot(name: Seq<char>) -> int
    decreases name.len(),
{
    if name.len() == 0 {
        -1
    } else if name.last() == '.' {
        name.len() - 1
    } else {
        last_dot(name.drop_last())
    }
}

/// The extension of `name`: what follows its last `.`. A name without a `.`
/// has none.
pub open spec fn extension(name: Seq<char>) -> Option<Seq<char>> {
    if last_dot(name) < 0 {
        None
    } else {
        Some(name.skip(last_dot(name) + 1))
    }
}

/// A name with the extension of a source file: `ts` or `js`.
pub open spec fn is_source_name(name: Seq<char>) -> bool {
    extension(name) == Some("ts"@) || extension(name) == Some("js"@)
}

/// `name` ends with `suffix`.
pub open spec fn ends_with(name: Seq<char>, suffix: Seq<char>) -> bool {
    &&& suffix.len() <= name.len()
    &&& name.subrange(name.len() - suffix.len(), name.len() as int) == suffix
}

/// The path of the entry `name` of the directory `dir`.
pub open spec fn joined(dir: Seq<char>, name: Seq<char>) -> Seq<char> {
    dir + "/"@ + name
}

/// The names of a list of strings.
pub open spec fn names_of(list: Seq<String>) -> Seq<Seq<char>> {
    list.map_values(|s: String| s@)
}

/// Where the last `.` stands: it is a `.`, and none follows it.
pub proof fn lemma_last_dot(name: Seq<char>)
    ensures
        -1 <= last_dot(name) < name.len(),
        last_dot(name) >= 0 ==> name[last_dot(name)] == '.',
        forall|i: int| last_dot(name) < i < name.len() ==> name[i] != '.',
    decreases name.len(),
{
    if name.len() > 0 && name.last() != '.' {
        lemma_last_dot(name.drop_last());
        assert forall|i: int| last_dot(name) < i < name.len() implies name[i] != '.' by {
            if i < name.len() - 1 {
                assert(name.drop_last()[i] == name[i]);
            }
        }
    }
}

/// A name has the extension `ext` where it ends with a `.` and `ext`,
/// provided that `ext` holds no `.` itself.
pub proof fn lemma_extension_is_suffix(name: Seq<char>, ext: Seq<char>)
    requires
        !ext.contains('.'),
    ensures
        extension(name) == Some(ext) <==> ends_with(name, seq!['.'] + ext),
{
    let dot = last_dot(name);
    let suffix = seq!['.'] + ext;
    lemma_last_dot(name);
    if extension(name) == Some(ext) {
        assert(name.subrange(name.len() - suffix.len(), name.len() as int) =~= suffix) by {
            assert forall|k: int| 0 <= k < suffix.len() implies name[dot + k] == suffix[k] by {
                if k > 0 {
                    assert(name.skip(dot + 1)[k - 1] == name[dot + k]);
                }
            }
        }
    }
    if ends_with(name, suffix) {
        let at = name.len() - suffix.len();
        assert(holds_at(name, at, suffix));
        assert(name[at] == '.') by {
            lemma_holds_at_index(name, at, suffix, 0);
        }
        if dot > at {
            lemma_holds_at_index(name, at, suffix, dot - at);
            assert(ext.contains(ext[dot - at - 1]));
        }
        assert(dot == at);
        assert(name.skip(dot + 1) =~= ext) by {
            assert forall|k: int| 0 <= k < ext.len() implies name[dot + 1 + k] == ext[k] by {
                lemma_holds_at_index(name, at, suffix, k + 1);
            }
        }
    }
}

/// A source name is a name that ends with `.ts` or `.js`.
pub proof fn lemma_source_name_is_suffix(name: Seq<char>)
    ensures
        is_source_name(name) <==> (ends_with(name, ".ts"@) || ends_with(name, ".js"@)),
{
    reveal_strlit("ts");
    reveal_strlit("js");
    reveal_strlit(".ts");
    reveal_strlit(".js");
    assert(seq!['.'] + "ts"@ =~= ".ts"@);
    assert(seq!['.'] + "js"@ =~= ".js"@);
    assert(!"ts"@.contains('.'));
    assert(!"js"@.contains('.'));
    lemma_extension_is_suffix(name, "ts"@);
    lemma_extension_is_suffix(name, "js"@);
}

/// Decides `ends_with`.
fn has_suffix(name: &[char], suffix: &[char]) -> (found: bool)
    ensures
        found == ends_with(name@, suffix@),
{
    suffix.len() <= name.len() && word_at(name, name.len() - suffix.len(), suffix)
}

/// Decides `is_source_name`.
pub fn source_name(name: &str) -> (source: bool)
    ensures
        source == is_source_name(name@),
{
    let chars = chars_of(name);
    let ts: [char; 3] = ['.', 't', 's'];
    let js: [char; 3] = ['.', 'j', 's'];
    proof {
        reveal_strlit(".ts");
        reveal_strlit(".js");
        assert(ts@ =~= ".ts"@);
        assert(js@ =~= ".js"@);
        lemma_source_name_is_suffix(name@);
    }
    has_suffix(chars.as_slice(), ts.as_slice()) || has_suffix(chars.as_slice(), js.as_slice())
}

/// Builds `joined`: the directory, a `/`, and the name, and nothing else.
pub fn join_path(dir: &str, name: &str) -> (path: String)
    ensures
        path@ == joined(dir@, name@),
{
    let mut path = String::from_str(dir);
    path.append("/");
    path.append(name);
    path
}

/// Whether `name` is one of `list`, character by character.
pub fn is_listed(list: &Vec<String>, name: &String) -> (listed: bool)
    ensures
        listed == names_of(list@).contains(name@),
{
    let mut i: usize = 0;
    while i < list.len()
        invariant
            i <= list.len(),
            forall|j: int| 0 <= j < i ==> list@[j]@ != name@,
        decreases list.len() - i,
    {
        if list[i] == *name {
            assert(names_of(list@)[i as int] == name@);
            return true;
        }
        i += 1;
    }
    false
}

/// The path of a source file under a directory is a source name too.
pub proof fn lemma_joined_source_name(dir: Seq<char>, name: Seq<char>)
    requires
        is_source_name(name),
    ensures
        is_source_name(joined(dir, name)),
{
    let path = joined(dir, name);
    lemma_source_name_is_suffix(name);
    lemma_source_name_is_suffix(path);
    assert forall|suffix: Seq<char>| ends_with(name, suffix) implies ends_with(path, suffix) by {
        assert(path.subrange(path.len() - suffix.len(), path.len() as int) =~= name.subrange(
            name.len() - suffix.len(),
            name.len() as int,
        ));
    }
}

} // verus!
