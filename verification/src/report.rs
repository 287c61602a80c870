//! What is shown of a search's result.

use vstd::prelude::*;
use crate::rule::SearchKind;
use crate::tree::texts;

verus! {

/// The character for one decimal digit.
pub open spec fn digit(d: nat) -> char {
    if d == 0 {
        '0'
    } else if d == 1 {
        '1'
    } else if d == 2 {
        '2'
    } else if d == 3 {
        '3'
    } else if d == 4 {
        '4'
    } else if d == 5 {
        '5'
    } else if d == 6 {
        '6'
    } else if d == 7 {
        '7'
    } else if d == 8 {
        '8'
    } else {
        '9'
    }
}

/// `n` in decimal digits, without leading zeros.
pub open spec fn decimal(n: nat) -> Seq<char>
    decreases n,
{
    if n < 10 {
        seq![digit(n)]
    } else {
        decimal(n / 10).push(digit(n % 10))
    }
}

/// What follows the count in the line that sums a result up.
pub open spec fn summary_tail(count: nat, kind: SearchKind) -> Seq<char> {
    match kind {
        SearchKind::File => if count == 1 {
            " file was found."@
        } else {
            " files were found."@
        },
        SearchKind::Directory => if count == 1 {
            " directory was found."@
        } else {
            " directories were found."@
        },
    }
}

/// The line that sums up a result of `count` paths.
pub open spec fn summary(count: nat, kind: SearchKind) -> Seq<char> {
    decimal(count) + summary_tail(count, kind)
}

/// The lines shown for a result: `Not found` for an empty one; else the
/// paths in their order, an empty line, and the line that sums them up.
pub open spec fn report_lines(found: Seq<Seq<char>>, kind: SearchKind) -> Seq<Seq<char>> {
    if found.len() == 0 {
        seq!["Not found"@]
    } else {
        found + seq![Seq::empty(), summary(found.len(), kind)]
    }
}

fn digit_text(d: usize) -> (text: &'static str)
    requires
        d < 10,
    ensures
        text@ == seq![digit(d as nat)],
{
    proof {
        reveal_strlit("0");
        reveal_strlit("1");
        reveal_strlit("2");
        reveal_strlit("3");
        reveal_strlit("4");
        reveal_strlit("5");
        reveal_strlit("6");
        reveal_strlit("7");
        reveal_strlit("8");
        reveal_strlit("9");
    }
    let text = if d == 0 {
        "0"
    } else if d == 1 {
        "1"
    } else if d == 2 {
        "2"
    } else if d == 3 {
        "3"
    } else if d == 4 {
        "4"
    } else if d == 5 {
        "5"
    } else if d == 6 {
        "6"
    } else if d == 7 {
        "7"
    } else if d == 8 {
        "8"
    } else {
        "9"
    };
    assert(text@ =~= seq![digit(d as nat)]);
    text
}

/// Writes `n` in decimal digits.
pub fn decimal_of(n: usize) -> (text: String)
    ensures
        text@ == decimal(n as nat),
    decreases n,
{
    if n < 10 {
        String::from_str(digit_text(n))
    } else {
        let mut text = decimal_of(n / 10);
        text.append(digit_text(n % 10));
        text
    }
}

/// Writes the line that sums up a result of `count` paths.
pub fn summary_of(count: usize, kind: SearchKind) -> (line: String)
    ensures
        line@ == summary(count as nat, kind),
{
    let mut line = decimal_of(count);
    let tail = match kind {
        SearchKind::File => if count == 1 {
            " file was found."
        } else {
            " files were found."
        },
        SearchKind::Directory => if count == 1 {
            " directory was found."
        } else {
            " directories were found."
        },
    };
    line.append(tail);
    line
}

/// Writes the lines shown for a result.
pub fn report(found: &Vec<String>, kind: SearchKind) -> (lines: Vec<String>)
    ensures
        texts(lines@) == report_lines(texts(found@), kind),
{
    let mut lines: Vec<String> = Vec::new();
    if found.len() == 0 {
        lines.push(String::from_str("Not found"));
        proof {
            assert(texts(lines@) =~= seq!["Not found"@]);
        }
        return lines;
    }
    for i in 0..found.len()
        invariant
            texts(lines@) == texts(found@).take(i as int),
    {
        let ghost before = texts(lines@);
        let path = found[i].clone();
        lines.push(path);
        proof {
            assert(texts(lines@) =~= before.push(path@));
            assert(before.push(path@) =~= texts(found@).take(i + 1));
        }
    }
    let ghost paths = texts(lines@);
    lines.push(String::new());
    lines.push(summary_of(found.len(), kind));
    proof {
        assert(paths =~= texts(found@));
        assert(texts(lines@) =~= paths + seq![Seq::empty(), summary(found@.len(), kind)]);
    }
    lines
}

} // verus!
