//! Wildcard patterns: which texts a pattern accepts, and the regular expression
//! that is handed to the matching engine to decide it.
//!
//! In a wildcard pattern `*` stands for any run of characters, the empty one
//! included; every other character stands for itself. A pattern is matched
//! against a whole text, never against a part of it.

use vstd::prelude::*;
use crate::text::count_of;

verus! {

/// The number of `*` in `glob`.
pub open spec fn stars(glob: Seq<char>) -> nat {
    count_of(glob, '*')
}

/// `glob` with its `*`s replaced, from left to right, by the strings of `fills`.
pub open spec fn fill(glob: Seq<char>, fills: Seq<Seq<char>>) -> Seq<char>
    decreases glob.len(),
{
    if glob.len() == 0 {
        Seq::empty()
    } else if glob.last() == '*' {
        fill(glob.drop_last(), fills.drop_last()) + fills.last()
    } else {
        fill(glob.drop_last(), fills).push(glob.last())
    }
}

/// Whether the wildcard pattern `glob` accepts `text`: whether `text` is `glob`
/// with some string, possibly empty, in place of each `*`.
pub open spec fn glob_accepts(glob: Seq<char>, text: Seq<char>) -> bool {
    exists|fills: Seq<Seq<char>>| fills.len() == stars(glob) && #[trigger] fill(glob, fills) == text
}

/// The characters that have a meaning of their own in a regular expression.
pub open spec fn is_meta(c: char) -> bool {
    c == '\\' || c == '.' || c == '+' || c == '*' || c == '?' || c == '(' || c == ')' || c == '|'
        || c == '[' || c == ']' || c == '{' || c == '}' || c == '^' || c == '$' || c == '#' || c
        == '&' || c == '-' || c == '~'
}

/// What one character of a wildcard pattern becomes in the regular expression:
/// `*` becomes `.*`, a character with a meaning of its own is escaped with a
/// backslash, any other is kept.
pub open spec fn regex_piece(c: char) -> Seq<char> {
    if c == '*' {
        seq!['.', '*']
    } else if is_meta(c) {
        seq!['\\', c]
    } else {
        seq![c]
    }
}

/// The pieces of all characters of `glob`, in order.
pub open spec fn regex_body(glob: Seq<char>) -> Seq<char>
    decreases glob.len(),
{
    if glob.len() == 0 {
        Seq::empty()
    } else {
        regex_body(glob.drop_last()) + regex_piece(glob.last())
    }
}

/// What every regular expression made here begins with: the flag that lets `.`
/// match a line break too, and the anchor at the start of the text.
pub open spec fn regex_head() -> Seq<char> {
    seq!['(', '?', 's', ')', '^']
}

/// The regular expression for `glob`: anchored at both ends, so that it
/// matches whole texts only.
pub open spec fn glob_source(glob: Seq<char>) -> Seq<char> {
    regex_head() + regex_body(glob) + seq!['$']
}

/// The empty pattern accepts the empty text and no other.
pub proof fn lemma_empty_glob(text: Seq<char>)
    ensures
        glob_accepts(Seq::empty(), text) <==> text.len() == 0,
{
    let glob = Seq::<char>::empty();
    if text.len() == 0 {
        let fills = Seq::<Seq<char>>::empty();
        assert(fill(glob, fills) == text);
    }
}

/// A pattern that ends in a character other than `*` accepts the texts that
/// end in that character and whose rest the rest of the pattern accepts.
pub proof fn lemma_glob_ends_in_literal(glob: Seq<char>, text: Seq<char>)
    requires
        glob.len() > 0,
        glob.last() != '*',
    ensures
        glob_accepts(glob, text) <==> text.len() > 0 && text.last() == glob.last() && glob_accepts(
            glob.drop_last(),
            text.drop_last(),
        ),
{
    let init = glob.drop_last();
    if glob_accepts(glob, text) {
        let fills = choose|fills: Seq<Seq<char>>|
            fills.len() == stars(glob) && #[trigger] fill(glob, fills) == text;
        assert(text.drop_last() == fill(init, fills));
    }
    if text.len() > 0 && text.last() == glob.last() && glob_accepts(init, text.drop_last()) {
        let fills = choose|fills: Seq<Seq<char>>|
            fills.len() == stars(init) && #[trigger] fill(init, fills) == text.drop_last();
        assert(fill(glob, fills) == text);
    }
}

/// A pattern that ends in `*` accepts the texts of which the rest of the
/// pattern accepts some prefix.
pub proof fn lemma_glob_ends_in_star(glob: Seq<char>, text: Seq<char>)
    requires
        glob.len() > 0,
        glob.last() == '*',
    ensures
        glob_accepts(glob, text) <==> exists|k: int|
            0 <= k <= text.len() && glob_accepts(glob.drop_last(), #[trigger] text.take(k)),
{
    let init = glob.drop_last();
    if glob_accepts(glob, text) {
        let fills = choose|fills: Seq<Seq<char>>|
            fills.len() == stars(glob) && #[trigger] fill(glob, fills) == text;
        let head = fill(init, fills.drop_last());
        assert(text.take(head.len() as int) == head);
        assert(glob_accepts(init, text.take(head.len() as int)));
    }
    if exists|k: int| 0 <= k <= text.len() && glob_accepts(init, #[trigger] text.take(k)) {
        let k = choose|k: int| 0 <= k <= text.len() && glob_accepts(init, #[trigger] text.take(k));
        let some = choose|fills: Seq<Seq<char>>|
            fills.len() == stars(init) && #[trigger] fill(init, fills) == text.take(k);
        let fills = some.push(text.skip(k));
        assert(fills.drop_last() == some);
        assert(fill(glob, fills) == text.take(k) + text.skip(k));
        assert(text.take(k) + text.skip(k) == text);
    }
}

/// A pattern without `*` accepts itself and no other text.
pub proof fn lemma_glob_without_star(glob: Seq<char>, text: Seq<char>)
    requires
        !glob.contains('*'),
    ensures
        glob_accepts(glob, text) <==> text == glob,
    decreases glob.len(),
{
    if glob.len() == 0 {
        lemma_empty_glob(text);
        assert(text.len() == 0 ==> text =~= glob);
    } else {
        let init = glob.drop_last();
        assert(glob[glob.len() - 1] != '*');
        assert forall|i: int| 0 <= i < init.len() implies init[i] != '*' by {
            assert(glob[i] != '*');
        }
        lemma_glob_ends_in_literal(glob, text);
        if text.len() > 0 {
            lemma_glob_without_star(init, text.drop_last());
            assert(text == text.drop_last().push(text.last()));
            assert(glob == init.push(glob.last()));
        }
    }
}

/// Whether `c` has a meaning of its own in a regular expression.
pub fn is_meta_char(c: char) -> (meta: bool)
    ensures
        meta == is_meta(c),
{
    c == '\\' || c == '.' || c == '+' || c == '*' || c == '?' || c == '(' || c == ')' || c == '|'
        || c == '[' || c == ']' || c == '{' || c == '}' || c == '^' || c == '$' || c == '#' || c
        == '&' || c == '-' || c == '~'
}

/// Writes the regular expression for the wildcard pattern `glob`.
pub fn regex_for(glob: &str) -> (source: String)
    ensures
        source@ == glob_source(glob@),
{
    let n = glob.unicode_len();
    let mut out = String::from_str("(?s)^");
    proof {
        reveal_strlit("(?s)^");
        assert(out@ == regex_head());
        assert(glob@.take(0) == Seq::<char>::empty());
    }
    // The characters from `start` on are copied as they are, in one piece.
    let mut start: usize = 0;
    let mut i: usize = 0;
    for c in it: glob.chars()
        invariant
            it.seq() == glob@,
            n == glob@.len(),
            i == it.index(),
            start <= i <= n,
            out@ + glob@.subrange(start as int, i as int) == regex_head() + regex_body(
                glob@.take(i as int),
            ),
    {
        let ghost done = out@ + glob@.subrange(start as int, i as int);
        proof {
            let next = glob@.take(i + 1);
            assert(next.drop_last() == glob@.take(i as int));
            assert(regex_head() + regex_body(next) == done + regex_piece(c));
            assert(glob@.subrange(start as int, i + 1) == glob@.subrange(start as int, i as int)
                + seq![c]);
        }
        if c == '*' {
            out.append(glob.substring_char(start, i));
            out.append(".*");
            start = i + 1;
            proof {
                reveal_strlit(".*");
                assert(out@ + glob@.subrange(start as int, i + 1) == done + regex_piece(c));
            }
        } else if is_meta_char(c) {
            out.append(glob.substring_char(start, i));
            out.append("\\");
            start = i;
            proof {
                reveal_strlit("\\");
                assert(glob@.subrange(i as int, i + 1) == seq![c]);
                assert(out@ + glob@.subrange(start as int, i + 1) == done + regex_piece(c));
            }
        } else {
            proof {
                assert(out@ + glob@.subrange(start as int, i + 1) == done + regex_piece(c));
            }
        }
        i = i + 1;
    }
    out.append(glob.substring_char(start, n));
    out.append("$");
    proof {
        reveal_strlit("$");
        assert(glob@.take(n as int) == glob@);
    }
    out
}

} // verus!
