//! Paths, as texts whose parts are separated by `/`.

use vstd::prelude::*;
use crate::text::{char_len, find_last, lemma_last_index_of};

verus! {

/// The path of the entry `name` of the directory `dir`: the two with one `/`
/// between them, which is not added where `dir` is empty or ends in one.
pub open spec fn join(dir: Seq<char>, name: Seq<char>) -> Seq<char> {
    if dir.len() == 0 || dir.last() == '/' {
        dir + name
    } else {
        dir.push('/') + name
    }
}

/// The path of the entry `name` of the directory `dir`.
pub fn join_path(dir: &str, name: &str) -> (path: String)
    ensures
        path@ == join(dir@, name@),
{
    let n = char_len(dir);
    let ends_in_separator = match find_last(dir, '/') {
        Some(at) => n > 0 && at == n - 1,
        None => false,
    };
    proof {
        lemma_last_index_of(dir@, '/');
    }
    let mut path = String::from_str(dir);
    if n > 0 && !ends_in_separator {
        path.append("/");
        proof {
            reveal_strlit("/");
            assert(path@ == dir@.push('/'));
        }
    }
    path.append(name);
    path
}

} // verus!
