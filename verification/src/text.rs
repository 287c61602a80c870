//! Character-level helpers shared by the pattern, name and path rules.
//!
//! Strings are modelled by their view, a `Seq<char>`. Every position below is a
//! position in characters, never in bytes.

use vstd::prelude::*;
use vstd::std_specs::iter::IteratorSpec;

verus! {

/// How many times `c` occurs in `s`.
pub open spec fn count_of(s: Seq<char>, c: char) -> nat
    decreases s.len(),
{
    if s.len() == 0 {
        0
    } else {
        count_of(s.drop_last(), c) + if s.last() == c {
            1nat
        } else {
            0nat
        }
    }
}

/// The position of the last `c` in `s`, or `-1` where `s` holds none.
pub open spec fn last_index_of(s: Seq<char>, c: char) -> int
    decreases s.len(),
{
    if s.len() == 0 {
        -1
    } else if s.last() == c {
        s.len() - 1
    } else {
        last_index_of(s.drop_last(), c)
    }
}

/// `count_of` never exceeds the length, and is positive exactly where `c` occurs.
pub proof fn lemma_count_of(s: Seq<char>, c: char)
    ensures
        count_of(s, c) <= s.len(),
        count_of(s, c) > 0 <==> s.contains(c),
    decreases s.len(),
{
    if s.len() > 0 {
        let init = s.drop_last();
        lemma_count_of(init, c);
        if s.contains(c) {
            let i = choose|i: int| 0 <= i < s.len() && s[i] == c;
            if i < s.len() - 1 {
                assert(init[i] == c);
            }
        }
        if init.contains(c) {
            let i = choose|i: int| 0 <= i < init.len() && init[i] == c;
            assert(s[i] == c);
        }
    }
}

/// `last_index_of` is the greatest position that holds `c`.
pub proof fn lemma_last_index_of(s: Seq<char>, c: char)
    ensures
        -1 <= last_index_of(s, c) < s.len(),
        last_index_of(s, c) >= 0 ==> s[last_index_of(s, c)] == c,
        forall|i: int| last_index_of(s, c) < i < s.len() ==> s[i] != c,
        last_index_of(s, c) >= 0 <==> s.contains(c),
    decreases s.len(),
{
    if s.len() > 0 {
        let init = s.drop_last();
        lemma_last_index_of(init, c);
        if s.last() != c {
            assert forall|i: int| last_index_of(s, c) < i < s.len() implies s[i] != c by {
                if i < s.len() - 1 {
                    assert(init[i] != c);
                }
            }
            if s.contains(c) {
                let i = choose|i: int| 0 <= i < s.len() && s[i] == c;
                assert(init[i] == c);
            }
        }
        let k = last_index_of(s, c);
        if k >= 0 {
            assert(s[k] == c);
        }
    }
}

/// The number of characters of `s`.
pub fn char_len(s: &str) -> (n: usize)
    ensures
        n == s@.len(),
{
    s.unicode_len()
}

/// Whether `a` and `b` hold the same characters.
pub fn same_text(a: &str, b: &str) -> (same: bool)
    ensures
        same == (a@ == b@),
{
    let mut left = a.chars();
    let mut right = b.chars();
    let ghost mut n: int = 0;
    loop
        invariant
            0 <= n <= a@.len(),
            n <= b@.len(),
            left.remaining() == a@.skip(n),
            right.remaining() == b@.skip(n),
            a@.take(n) == b@.take(n),
        decreases a@.len() - n,
    {
        let x = left.next();
        let y = right.next();
        match (x, y) {
            (None, None) => {
                proof {
                    assert(a@.take(n) == a@);
                    assert(b@.take(n) == b@);
                }
                return true;
            },
            (Some(p), Some(q)) => {
                if p != q {
                    proof {
                        assert(a@[n] != b@[n]);
                    }
                    return false;
                }
                proof {
                    assert(a@.take(n + 1) == a@.take(n).push(p));
                    assert(b@.take(n + 1) == b@.take(n).push(q));
                    assert(a@.skip(n).drop_first() == a@.skip(n + 1));
                    assert(b@.skip(n).drop_first() == b@.skip(n + 1));
                    n = n + 1;
                }
            },
            _ => {
                proof {
                    assert(a@.len() != b@.len());
                }
                return false;
            },
        }
    }
}

/// Whether `c` occurs in `s`.
pub fn contains_char(s: &str, c: char) -> (found: bool)
    ensures
        found == s@.contains(c),
{
    let mut found = false;
    for x in it: s.chars()
        invariant
            it.seq() == s@,
            found == s@.take(it.index()).contains(c),
    {
        proof {
            let i = it.index();
            assert(s@.take(i + 1) == s@.take(i).push(x));
            if s@.take(i).contains(c) {
                let j = choose|j: int| 0 <= j < i && s@.take(i)[j] == c;
                assert(s@.take(i + 1)[j] == c);
            }
            if x == c {
                assert(s@.take(i + 1)[i] == c);
            }
        }
        found = found || x == c;
    }
    proof {
        assert(s@.take(s@.len() as int) == s@);
    }
    found
}

/// The position of the last `c` in `s`, if there is one.
pub fn find_last(s: &str, c: char) -> (at: Option<usize>)
    ensures
        match at {
            Some(i) => i == last_index_of(s@, c),
            None => last_index_of(s@, c) == -1,
        },
{
    let n = s.unicode_len();
    let mut at: Option<usize> = None;
    let mut i: usize = 0;
    proof {
        assert(s@.take(0).len() == 0);
    }
    for x in it: s.chars()
        invariant
            it.seq() == s@,
            n == s@.len(),
            i == it.index(),
            i <= n,
            match at {
                Some(k) => k == last_index_of(s@.take(i as int), c),
                None => last_index_of(s@.take(i as int), c) == -1,
            },
    {
        proof {
            assert(s@.take(i + 1).drop_last() == s@.take(i as int));
        }
        if x == c {
            at = Some(i);
        }
        i = i + 1;
    }
    proof {
        assert(s@.take(n as int) == s@);
    }
    at
}

} // verus!
