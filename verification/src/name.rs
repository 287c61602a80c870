//! What a name is made of: its stem, and whether it carries an extension or a
//! wildcard.

use vstd::prelude::*;
use crate::text::{contains_char, count_of, find_last, last_index_of, lemma_count_of, lemma_last_index_of};

verus! {

/// Whether `pattern` holds a `*`.
pub open spec fn has_wildcard(pattern: Seq<char>) -> bool {
    pattern.contains('*')
}

/// Whether `pattern` names an extension: it holds a `.`, and either does not
/// begin with one or holds at least two. So `notes.txt` and `.env.local` do,
/// `.gitignore` and `README` do not.
pub open spec fn has_extension(pattern: Seq<char>) -> bool {
    pattern.contains('.') && (pattern[0] != '.' || count_of(pattern, '.') >= 2)
}

/// A name without its extension: the part before the last `.`, or the whole
/// name where it holds no `.` or only the one it begins with.
pub open spec fn stem(name: Seq<char>) -> Seq<char> {
    let dot = last_index_of(name, '.');
    if dot <= 0 {
        name
    } else {
        name.take(dot)
    }
}

proof fn lemma_leading_dot(s: Seq<char>)
    requires
        s.len() > 0,
        s[0] == '.',
    ensures
        count_of(s, '.') >= 2 <==> last_index_of(s, '.') >= 1,
    decreases s.len(),
{
    let init = s.drop_last();
    if init.len() > 0 {
        lemma_leading_dot(init);
        assert(init[0] == '.');
        lemma_count_of(init, '.');
    } else {
        assert(count_of(init, '.') == 0);
    }
}

/// A name has an extension exactly where a `.` stands after its first
/// character.
pub proof fn lemma_extension_is_inner_dot(pattern: Seq<char>)
    ensures
        has_extension(pattern) <==> last_index_of(pattern, '.') >= 1,
{
    lemma_last_index_of(pattern, '.');
    if pattern.len() > 0 && pattern[0] == '.' {
        lemma_leading_dot(pattern);
    } else if pattern.contains('.') {
        let k = last_index_of(pattern, '.');
        assert(pattern[k] == '.');
    }
}

/// The stem is shorter than the name exactly where the name has an extension,
/// and is the whole name elsewhere.
pub proof fn lemma_stem_and_extension(name: Seq<char>)
    ensures
        has_extension(name) <==> stem(name) != name,
        !has_extension(name) ==> stem(name) == name,
        has_extension(name) ==> 1 <= stem(name).len() < name.len(),
{
    lemma_extension_is_inner_dot(name);
    lemma_last_index_of(name, '.');
}

/// Whether `pattern` holds a `*`.
pub fn detect_wildcard(pattern: &str) -> (found: bool)
    ensures
        found == has_wildcard(pattern@),
{
    contains_char(pattern, '*')
}

/// Whether `pattern` names an extension.
pub fn detect_extension(pattern: &str) -> (found: bool)
    ensures
        found == has_extension(pattern@),
{
    proof {
        lemma_extension_is_inner_dot(pattern@);
    }
    match find_last(pattern, '.') {
        Some(dot) => dot >= 1,
        None => false,
    }
}

/// The stem of `name`.
pub fn stem_of(name: &str) -> (part: &str)
    ensures
        part@ == stem(name@),
{
    proof {
        lemma_last_index_of(name@, '.');
    }
    match find_last(name, '.') {
        Some(dot) => {
            if dot >= 1 {
                name.substring_char(0, dot)
            } else {
                name
            }
        },
        None => name,
    }
}

} // verus!
