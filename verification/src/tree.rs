//! Directory trees, and what a search finds in one.
//!
//! [`found_in`] is the meaning of a search: every way of running one, over a
//! tree held in memory or step by step over a file system, is held to it.

use vstd::prelude::*;
use crate::path::{join, join_path};
use crate::rule::{MatchRule, Rule, SearchKind};

verus! {

/// What an entry of a directory is.
#[derive(Clone, Copy, Debug, PartialEq, Eq, Structural)]
pub enum EntryKind {
    /// A regular file, or a link to one.
    File,
    /// A directory, or a link to one.
    Directory,
    /// A directory whose name is no text: it is entered like any directory,
    /// and matches nothing.
    Unnamed,
    /// Anything else, and what could not be looked at.
    Other,
}

/// Whether a search goes into an entry of this kind, as far as its depth
/// allows.
pub open spec fn is_entered(entry: EntryKind) -> bool {
    entry == EntryKind::Directory || entry == EntryKind::Unnamed
}

/// What an entry counts as, by what the file system says of it: `named` where
/// its name is text, `is_file` and `is_dir` where it is, or links to, a
/// regular file or a directory. Without a name that is text it can match
/// nothing, and is still entered where it is a directory.
pub open spec fn entry_kind(named: bool, is_file: bool, is_dir: bool) -> EntryKind {
    if is_file {
        if named {
            EntryKind::File
        } else {
            EntryKind::Other
        }
    } else if is_dir {
        if named {
            EntryKind::Directory
        } else {
            EntryKind::Unnamed
        }
    } else {
        EntryKind::Other
    }
}

/// The model of a directory tree: an entry, and below a directory its entries
/// in the order in which its listing yields them.
pub struct Tree {
    pub name: Seq<char>,
    pub kind: EntryKind,
    pub children: Seq<Tree>,
}

/// A directory tree held in memory. `children` counts only for an entry that
/// is entered.
#[derive(Debug)]
pub struct Node {
    pub name: String,
    pub kind: EntryKind,
    pub children: Vec<Node>,
}

/// The model of `node`.
pub open spec fn tree_of(node: Node) -> Tree
    decreases node,
{
    Tree {
        name: node.name@,
        kind: node.kind,
        children: Seq::new(
            node.children@.len(),
            |i: int|
                if 0 <= i < node.children@.len() {
                    tree_of(node.children@[i])
                } else {
                    arbitrary()
                },
        ),
    }
}

impl View for Node {
    type V = Tree;

    open spec fn view(&self) -> Tree {
        tree_of(*self)
    }
}

/// The models of `nodes`, in order.
pub open spec fn views(nodes: Seq<Node>) -> Seq<Tree> {
    Seq::new(nodes.len(), |i: int| nodes[i]@)
}

/// The entries of a directory held in memory are modelled one by one.
pub proof fn lemma_children_views(node: Node)
    ensures
        node@.children == views(node.children@),
{
    assert(node@.children =~= views(node.children@));
}

/// The characters of each of `paths`, in order.
pub open spec fn texts(paths: Seq<String>) -> Seq<Seq<char>> {
    Seq::new(paths.len(), |i: int| paths[i]@)
}

/// A directory could not be listed.
#[derive(Debug)]
pub struct WalkError {
    /// The path of that directory.
    pub path: String,
}

/// Whether an entry is of the kind that is searched for.
pub open spec fn is_wanted(entry: EntryKind, kind: SearchKind) -> bool {
    match kind {
        SearchKind::File => entry == EntryKind::File,
        SearchKind::Directory => entry == EntryKind::Directory,
    }
}

/// What the entry `name` of `dir` adds to the result by itself: its path, if
/// it is of the kind searched for and the rule matches its name.
pub open spec fn own_hit(
    dir: Seq<char>,
    name: Seq<char>,
    entry: EntryKind,
    rule: Rule,
    kind: SearchKind,
) -> Seq<Seq<char>> {
    if is_wanted(entry, kind) && rule.matches(name, kind) {
        seq![join(dir, name)]
    } else {
        Seq::empty()
    }
}

/// What a search finds at one entry of `dir` and below it, where it may still
/// go `depth` levels down: the entry's own path if it matches, then, if the
/// entry is a directory and `depth` is not used up, what is found in it.
pub open spec fn found_at(
    depth: nat,
    dir: Seq<char>,
    entry: Tree,
    rule: Rule,
    kind: SearchKind,
) -> Seq<Seq<char>>
    decreases depth, 0nat,
{
    own_hit(dir, entry.name, entry.kind, rule, kind) + if is_entered(entry.kind)
        && depth > 0 {
        found_in((depth - 1) as nat, join(dir, entry.name), entry.children, rule, kind)
    } else {
        Seq::empty()
    }
}

/// What a search finds in the directory `dir` with the entries `entries`,
/// where it may go `depth` levels further down: what it finds at each entry,
/// in the order of the listing.
pub open spec fn found_in(
    depth: nat,
    dir: Seq<char>,
    entries: Seq<Tree>,
    rule: Rule,
    kind: SearchKind,
) -> Seq<Seq<char>>
    decreases depth, entries.len() + 1,
{
    if entries.len() == 0 {
        Seq::empty()
    } else {
        found_in(depth, dir, entries.drop_last(), rule, kind) + found_at(
            depth,
            dir,
            entries.last(),
            rule,
            kind,
        )
    }
}

/// Whether `path` is the path of an entry at most `levels` levels below `dir`,
/// whose entries are `entries`.
pub open spec fn within(levels: nat, dir: Seq<char>, entries: Seq<Tree>, path: Seq<char>) -> bool
    decreases levels,
{
    levels > 0 && exists|j: int|
        0 <= j < entries.len() && (path == join(dir, #[trigger] entries[j].name) || (is_entered(
            entries[j].kind,
        ) && within(
            (levels - 1) as nat,
            join(dir, entries[j].name),
            entries[j].children,
            path,
        )))
}

/// The results come in the order of the listing: what is found at an entry,
/// and all that is found below it, stands before what is found at any later
/// entry of the same directory.
pub proof fn lemma_found_in_order(
    depth: nat,
    dir: Seq<char>,
    first: Seq<Tree>,
    then: Seq<Tree>,
    rule: Rule,
    kind: SearchKind,
)
    ensures
        found_in(depth, dir, first + then, rule, kind) == found_in(depth, dir, first, rule, kind)
            + found_in(depth, dir, then, rule, kind),
    decreases then.len(),
{
    if then.len() == 0 {
        assert(first + then == first);
    } else {
        assert((first + then).drop_last() == first + then.drop_last());
        lemma_found_in_order(depth, dir, first, then.drop_last(), rule, kind);
    }
}

/// What is found in a directory of one entry is what is found at that entry.
pub proof fn lemma_found_in_one(
    depth: nat,
    dir: Seq<char>,
    entry: Tree,
    rule: Rule,
    kind: SearchKind,
)
    ensures
        found_in(depth, dir, seq![entry], rule, kind) == found_at(depth, dir, entry, rule, kind),
{
    let one = seq![entry];
    assert(one.drop_last().len() == 0);
    assert(found_in(depth, dir, one.drop_last(), rule, kind) == Seq::<Seq<char>>::empty());
}

/// A search that may go `depth` levels down finds nothing more than
/// `depth + 1` levels below the directory it starts in. With a depth of zero
/// it finds entries of that directory only.
pub proof fn lemma_found_within_depth(
    depth: nat,
    dir: Seq<char>,
    entries: Seq<Tree>,
    rule: Rule,
    kind: SearchKind,
    i: int,
)
    requires
        0 <= i < found_in(depth, dir, entries, rule, kind).len(),
    ensures
        within(depth + 1, dir, entries, found_in(depth, dir, entries, rule, kind)[i]),
    decreases depth, entries.len(),
{
    let init = entries.drop_last();
    let last = entries.last();
    let before = found_in(depth, dir, init, rule, kind);
    let path = found_in(depth, dir, entries, rule, kind)[i];
    let j = entries.len() - 1;
    if i < before.len() {
        lemma_found_within_depth(depth, dir, init, rule, kind, i);
        let k = choose|k: int|
            0 <= k < init.len() && (path == join(dir, #[trigger] init[k].name) || (is_entered(
                init[k].kind,
            ) && within(
                depth,
                join(dir, init[k].name),
                init[k].children,
                path,
            )));
        assert(entries[k] == init[k]);
    } else {
        let own = own_hit(dir, last.name, last.kind, rule, kind);
        let at = found_at(depth, dir, last, rule, kind);
        assert(path == at[i - before.len()]);
        if i - before.len() < own.len() {
            assert(path == join(dir, entries[j].name));
        } else {
            let inner = found_in(
                (depth - 1) as nat,
                join(dir, last.name),
                last.children,
                rule,
                kind,
            );
            assert(is_entered(last.kind) && depth > 0);
            assert(path == inner[i - before.len() - own.len()]);
            lemma_found_within_depth(
                (depth - 1) as nat,
                join(dir, last.name),
                last.children,
                rule,
                kind,
                i - before.len() - own.len(),
            );
            assert(within(depth, join(dir, entries[j].name), entries[j].children, path));
        }
    }
}

/// What [`walk`] owes for a root, a rule and a depth: the paths that
/// [`found_in`] gives for a directory, and an error that names the root for
/// anything else.
pub open spec fn walked(
    result: Result<Vec<String>, WalkError>,
    max_depth: nat,
    root: Tree,
    rule: Rule,
    kind: SearchKind,
) -> bool {
    match result {
        Ok(found) => is_entered(root.kind) && texts(found@) == found_in(
            max_depth,
            root.name,
            root.children,
            rule,
            kind,
        ),
        Err(error) => !is_entered(root.kind) && error.path@ == root.name,
    }
}

/// The same search over the same tree gives the same result: two results that
/// meet what [`walk`] owes hold the same paths in the same order, or name the
/// same root.
pub proof fn lemma_walk_is_repeatable(
    first: Result<Vec<String>, WalkError>,
    second: Result<Vec<String>, WalkError>,
    max_depth: nat,
    root: Tree,
    rule: Rule,
    kind: SearchKind,
)
    requires
        walked(first, max_depth, root, rule, kind),
        walked(second, max_depth, root, rule, kind),
    ensures
        match (first, second) {
            (Ok(a), Ok(b)) => texts(a@) == texts(b@),
            (Err(a), Err(b)) => a.path@ == b.path@,
            _ => false,
        },
{
}

/// A directory that matches is searched like any other: below its own path
/// stands what is found in it.
pub proof fn lemma_matched_directory_is_searched(
    depth: nat,
    dir: Seq<char>,
    entry: Tree,
    rule: Rule,
)
    requires
        depth > 0,
        entry.kind == EntryKind::Directory,
        rule.matches(entry.name, SearchKind::Directory),
    ensures
        found_at(depth, dir, entry, rule, SearchKind::Directory) == seq![join(dir, entry.name)]
            + found_in(
            (depth - 1) as nat,
            join(dir, entry.name),
            entry.children,
            rule,
            SearchKind::Directory,
        ),
{
}

/// Whether an entry is of the kind that is searched for.
pub fn wanted(entry: EntryKind, kind: SearchKind) -> (yes: bool)
    ensures
        yes == is_wanted(entry, kind),
{
    match kind {
        SearchKind::File => match entry {
            EntryKind::File => true,
            _ => false,
        },
        SearchKind::Directory => match entry {
            EntryKind::Directory => true,
            _ => false,
        },
    }
}

/// Whether a search goes into an entry of this kind, as far as its depth
/// allows.
pub fn enters(entry: EntryKind) -> (yes: bool)
    ensures
        yes == is_entered(entry),
{
    match entry {
        EntryKind::Directory => true,
        EntryKind::Unnamed => true,
        _ => false,
    }
}

/// What an entry counts as, by what the file system says of it.
pub fn kind_of(named: bool, is_file: bool, is_dir: bool) -> (kind: EntryKind)
    ensures
        kind == entry_kind(named, is_file, is_dir),
{
    if is_file {
        if named {
            EntryKind::File
        } else {
            EntryKind::Other
        }
    } else if is_dir {
        if named {
            EntryKind::Directory
        } else {
            EntryKind::Unnamed
        }
    } else {
        EntryKind::Other
    }
}

/// Adds to `found` what a search finds in the directory `dir` with the entries
/// `entries`.
fn walk_into(
    depth: u32,
    dir: &str,
    entries: &Vec<Node>,
    rule: &MatchRule,
    kind: SearchKind,
    found: &mut Vec<String>,
)
    ensures
        texts(final(found)@) == texts(old(found)@) + found_in(
            depth as nat,
            dir@,
            views(entries@),
            rule@,
            kind,
        ),
    decreases depth,
{
    let ghost trees = views(entries@);
    let ghost start = texts(found@);
    proof {
        assert(trees.take(0).len() == 0);
    }
    for i in 0..entries.len()
        invariant
            trees == views(entries@),
            texts(found@) == start + found_in(depth as nat, dir@, trees.take(i as int), rule@, kind),
    {
        let node = &entries[i];
        let path = join_path(dir, node.name.as_str());
        let ghost before = texts(found@);
        proof {
            assert(trees.take(i + 1).drop_last() == trees.take(i as int));
            assert(trees.take(i + 1).last() == node@);
            lemma_children_views(*node);
        }
        if wanted(node.kind, kind) && rule.matches(node.name.as_str(), kind) {
            found.push(path.clone());
            proof {
                assert(texts(found@) == before.push(path@));
            }
        }
        if enters(node.kind) && depth > 0 {
            walk_into(depth - 1, path.as_str(), &node.children, rule, kind, found);
        }
        proof {
            assert(texts(found@) == before + found_at(depth as nat, dir@, node@, rule@, kind));
        }
    }
    proof {
        assert(trees.take(entries@.len() as int) == trees);
    }
}

/// Searches the tree below `root`, whose name is taken as its path, going at
/// most `max_depth` levels below its entries.
///
/// Fails where `root` is nothing that is entered: it has no listing.
pub fn walk(max_depth: u32, root: &Node, rule: &MatchRule, kind: SearchKind) -> (result: Result<
    Vec<String>,
    WalkError,
>)
    ensures
        walked(result, max_depth as nat, root@, rule@, kind),
{
    if !enters(root.kind) {
        return Err(WalkError { path: root.name.clone() });
    }
    let mut found: Vec<String> = Vec::new();
    proof {
        assert(texts(found@) == Seq::<Seq<char>>::empty());
        lemma_children_views(*root);
    }
    walk_into(max_depth, root.name.as_str(), &root.children, rule, kind, &mut found);
    Ok(found)
}

} // verus!
