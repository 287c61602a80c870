//! A search over a file system, one directory listing at a time.
//!
//! The library reads no directory itself. A [`Walker`] names the directory
//! whose listing it needs next; its caller reads that directory and hands the
//! listing in, until the search is done. What is found that way is what
//! [`found_in`] says of the tree that the listings were taken from.

use vstd::prelude::*;
use crate::path::{join, join_path};
use crate::rule::{MatchRule, Rule, SearchKind};
use crate::tree::{
    enters, found_at, found_in, is_entered, lemma_found_in_one, lemma_found_in_order, own_hit,
    texts, wanted, EntryKind, Tree, WalkError,
};

verus! {

/// How many levels below the entries of its root a search goes where nothing
/// else is asked for.
pub const DEFAULT_MAX_DEPTH: u32 = 5;

/// One entry of a directory's listing.
#[derive(Debug)]
pub struct Entry {
    pub name: String,
    pub kind: EntryKind,
}

/// The model of an [`Entry`].
pub struct Listed {
    pub name: Seq<char>,
    pub kind: EntryKind,
}

impl View for Entry {
    type V = Listed;

    open spec fn view(&self) -> Listed {
        Listed { name: self.name@, kind: self.kind }
    }
}

/// The models of `entries`, in order.
pub open spec fn listings(entries: Seq<Entry>) -> Seq<Listed> {
    Seq::new(entries.len(), |i: int| entries[i]@)
}

/// The listing of a directory whose entries are `trees`.
pub open spec fn listing_of(trees: Seq<Tree>) -> Seq<Listed> {
    Seq::new(trees.len(), |i: int| Listed { name: trees[i].name, kind: trees[i].kind })
}

/// The model of a directory that has been entered and not yet left.
pub struct Level {
    /// Its path.
    pub dir: Seq<char>,
    /// How many levels below its entries the search may still go.
    pub depth: nat,
    /// Its entries that have not been looked at, in the order of the listing.
    pub rest: Seq<Listed>,
}

/// The model of a search that waits for the listing of one directory.
pub struct Search {
    pub rule: Rule,
    pub kind: SearchKind,
    /// What has been found so far.
    pub found: Seq<Seq<char>>,
    /// The directories entered and not yet left, the outermost first.
    pub open: Seq<Level>,
    /// The path of the directory whose listing is awaited.
    pub dir: Seq<char>,
    /// How many levels below the entries of `dir` the search may go.
    pub depth: nat,
}

/// The model of a [`Step`].
pub enum Progress {
    Read(Search),
    Done(Seq<Seq<char>>),
}

/// How a search goes on from the directory `current`, with `open` around it:
/// it looks at the entries of `current` in order, takes each one that
/// matches, stops to have a directory listed that it may enter, and goes back
/// to the directory around when the entries are used up.
pub open spec fn resume(
    rule: Rule,
    kind: SearchKind,
    found: Seq<Seq<char>>,
    open: Seq<Level>,
    current: Level,
) -> Progress
    decreases open.len(), current.rest.len(),
{
    if current.rest.len() == 0 {
        if open.len() == 0 {
            Progress::Done(found)
        } else {
            resume(rule, kind, found, open.drop_last(), open.last())
        }
    } else {
        let entry = current.rest.first();
        let found = found + own_hit(current.dir, entry.name, entry.kind, rule, kind);
        let left = Level { dir: current.dir, depth: current.depth, rest: current.rest.drop_first() };
        if is_entered(entry.kind) && current.depth > 0 {
            Progress::Read(
                Search {
                    rule,
                    kind,
                    found,
                    open: open.push(left),
                    dir: join(current.dir, entry.name),
                    depth: (current.depth - 1) as nat,
                },
            )
        } else {
            resume(rule, kind, found, open, left)
        }
    }
}

impl Search {
    /// A search that starts in `root` and may go `max_depth` levels below its
    /// entries: it waits for the listing of `root`.
    pub open spec fn start(max_depth: nat, root: Seq<char>, rule: Rule, kind: SearchKind) -> Search {
        Search { rule, kind, found: Seq::empty(), open: Seq::empty(), dir: root, depth: max_depth }
    }

    /// The directory that is entered once its listing is there.
    pub open spec fn awaited(self, listing: Seq<Listed>) -> Level {
        Level { dir: self.dir, depth: self.depth, rest: listing }
    }

    /// How the search goes on once the awaited listing is there.
    pub open spec fn listed(self, listing: Seq<Listed>) -> Progress {
        resume(self.rule, self.kind, self.found, self.open, self.awaited(listing))
    }
}

/// A directory that has been entered and not yet left.
#[derive(Debug)]
struct Frame {
    dir: String,
    depth: u32,
    entries: Vec<Entry>,
    /// How many of `entries` have been looked at.
    next: usize,
}

impl Frame {
    spec fn level(self) -> Level {
        Level {
            dir: self.dir@,
            depth: self.depth as nat,
            rest: listings(self.entries@).skip(self.next as int),
        }
    }
}

spec fn levels(frames: Seq<Frame>) -> Seq<Level> {
    Seq::new(frames.len(), |i: int| frames[i].level())
}

/// A search that waits for the listing of one directory.
#[derive(Debug)]
pub struct Walker {
    rule: MatchRule,
    kind: SearchKind,
    found: Vec<String>,
    open: Vec<Frame>,
    dir: String,
    depth: u32,
}

impl View for Walker {
    type V = Search;

    closed spec fn view(&self) -> Search {
        Search {
            rule: self.rule@,
            kind: self.kind,
            found: texts(self.found@),
            open: levels(self.open@),
            dir: self.dir@,
            depth: self.depth as nat,
        }
    }
}

/// What a search needs next, or what it has found.
#[derive(Debug)]
pub enum Step {
    /// The listing of the directory that the walker awaits.
    Read(Walker),
    /// Nothing: the search is over, and these are the paths found, in order.
    Done(Vec<String>),
}

impl View for Step {
    type V = Progress;

    open spec fn view(&self) -> Progress {
        match self {
            Step::Read(walker) => Progress::Read(walker@),
            Step::Done(found) => Progress::Done(texts(found@)),
        }
    }
}

impl Walker {
    #[verifier::type_invariant]
    spec fn frames_in_range(self) -> bool {
        forall|i: int|
            0 <= i < self.open@.len() ==> (#[trigger] self.open@[i]).next
                <= self.open@[i].entries@.len()
    }

    /// Starts a search in the directory `root`, which may go `max_depth`
    /// levels below the entries of `root`.
    pub fn new(max_depth: u32, root: &str, rule: MatchRule, kind: SearchKind) -> (walker: Walker)
        ensures
            walker@ == Search::start(max_depth as nat, root@, rule@, kind),
    {
        let walker = Walker {
            rule,
            kind,
            found: Vec::new(),
            open: Vec::new(),
            dir: String::from_str(root),
            depth: max_depth,
        };
        proof {
            assert(walker@.found =~= Seq::<Seq<char>>::empty());
            assert(walker@.open =~= Seq::<Level>::empty());
        }
        walker
    }

    /// The path of the directory whose listing the search waits for.
    pub fn awaits(&self) -> (dir: &str)
        ensures
            dir@ == self@.dir,
    {
        self.dir.as_str()
    }

    /// Goes on with the listing of the awaited directory, until the search
    /// needs another listing or is over.
    #[verifier::loop_isolation(false)]
    pub fn listed(self, entries: Vec<Entry>) -> (step: Step)
        ensures
            step@ == self@.listed(listings(entries@)),
    {
        proof {
            use_type_invariant(&self);
        }
        let ghost goal = self@.listed(listings(entries@));
        let Walker { rule, kind, found, open, dir, depth } = self;
        let mut found = found;
        let mut open = open;
        let mut current = Frame { dir, depth, entries, next: 0 };
        proof {
            assert(current.level().rest =~= listings(entries@));
        }
        loop
            invariant
                current.next <= current.entries@.len(),
                forall|i: int|
                    0 <= i < open@.len() ==> (#[trigger] open@[i]).next <= open@[i].entries@.len(),
                resume(rule@, kind, texts(found@), levels(open@), current.level()) == goal,
            decreases open@.len(), current.entries@.len() - current.next,
        {
            let ghost was_found = texts(found@);
            let ghost was_open = levels(open@);
            let ghost was = current.level();
            if current.next >= current.entries.len() {
                match open.pop() {
                    None => {
                        return Step::Done(found);
                    },
                    Some(frame) => {
                        proof {
                            assert(levels(open@) =~= was_open.drop_last());
                            assert(frame.level() == was_open.last());
                        }
                        current = frame;
                    },
                }
            } else {
                let entry = &current.entries[current.next];
                let path = join_path(current.dir.as_str(), entry.name.as_str());
                proof {
                    assert(was.rest.first() == entry@);
                }
                if wanted(entry.kind, kind) && rule.matches(entry.name.as_str(), kind) {
                    found.push(path.clone());
                }
                proof {
                    assert(texts(found@) =~= was_found + own_hit(
                        was.dir,
                        entry@.name,
                        entry@.kind,
                        rule@,
                        kind,
                    ));
                }
                let enter = enters(entry.kind) && current.depth > 0;
                let depth = current.depth;
                current.next = current.next + 1;
                proof {
                    assert(current.level().rest =~= was.rest.drop_first());
                }
                if enter {
                    open.push(current);
                    let walker = Walker { rule, kind, found, open, dir: path, depth: depth - 1 };
                    proof {
                        assert(walker@.open =~= was_open.push(current.level()));
                    }
                    return Step::Read(walker);
                }
            }
        }
    }

    /// Ends the search because the awaited directory could not be listed.
    pub fn unreadable(self) -> (error: WalkError)
        ensures
            error.path@ == self@.dir,
    {
        WalkError { path: self.dir }
    }
}

/// Whether the trees `below` are what is left to look at in the directories
/// `open`, one by one.
pub open spec fn mirrors(open: Seq<Level>, below: Seq<Seq<Tree>>) -> bool {
    open.len() == below.len() && forall|i: int|
        0 <= i < open.len() ==> (#[trigger] open[i]).rest == listing_of(below[i])
}

/// What is still to be found in the directories `open`, in the order in which
/// the search comes back to them: the innermost first.
pub open spec fn owed(
    open: Seq<Level>,
    below: Seq<Seq<Tree>>,
    rule: Rule,
    kind: SearchKind,
) -> Seq<Seq<char>>
    decreases open.len(),
{
    if open.len() == 0 {
        Seq::empty()
    } else {
        found_in(open.last().depth, open.last().dir, below.last(), rule, kind) + owed(
            open.drop_last(),
            below.drop_last(),
            rule,
            kind,
        )
    }
}

/// Where a search stops next that goes on in a directory with the entries
/// `here`, below which it may go `depth` levels, in terms of the tree: what is
/// then left to look at in the directories that are open, and the entries of
/// the directory whose listing it waits for.
pub open spec fn descend(
    open: Seq<Level>,
    below: Seq<Seq<Tree>>,
    depth: nat,
    here: Seq<Tree>,
) -> (Seq<Seq<Tree>>, Seq<Tree>)
    decreases open.len(), here.len(),
{
    if here.len() == 0 {
        if open.len() == 0 {
            (Seq::empty(), Seq::empty())
        } else {
            descend(open.drop_last(), below.drop_last(), open.last().depth, below.last())
        }
    } else {
        let tree = here.first();
        if is_entered(tree.kind) && depth > 0 {
            (below.push(here.drop_first()), tree.children)
        } else {
            descend(open, below, depth, here.drop_first())
        }
    }
}

/// How many directories a search enters at one entry and below it, where it
/// may still go `depth` levels down.
pub open spec fn entered_at(depth: nat, entry: Tree) -> nat
    decreases depth, 0nat,
{
    if is_entered(entry.kind) && depth > 0 {
        1 + entered_in((depth - 1) as nat, entry.children)
    } else {
        0
    }
}

/// How many directories a search enters below a directory with the entries
/// `entries`, where it may go `depth` levels further down.
pub open spec fn entered_in(depth: nat, entries: Seq<Tree>) -> nat
    decreases depth, entries.len() + 1,
{
    if entries.len() == 0 {
        0
    } else {
        entered_in(depth, entries.drop_last()) + entered_at(depth, entries.last())
    }
}

/// How many directories a search still enters once it is back in the
/// directories `open`.
pub open spec fn entered_owed(open: Seq<Level>, below: Seq<Seq<Tree>>) -> nat
    decreases open.len(),
{
    if open.len() == 0 {
        0
    } else {
        entered_in(open.last().depth, below.last()) + entered_owed(
            open.drop_last(),
            below.drop_last(),
        )
    }
}

/// A search that is driven over a tree: each listing that it asks for is
/// taken from the tree. Gives what the search has found when it is over, or
/// nothing if it asks for more than `fuel` further listings.
pub open spec fn run(search: Search, below: Seq<Seq<Tree>>, entries: Seq<Tree>, fuel: nat) -> Option<
    Seq<Seq<char>>,
>
    decreases fuel,
{
    match search.listed(listing_of(entries)) {
        Progress::Done(all) => Some(all),
        Progress::Read(next) => if fuel == 0 {
            None
        } else {
            let (around, inner) = descend(search.open, below, search.depth, entries);
            run(next, around, inner, (fuel - 1) as nat)
        },
    }
}

proof fn lemma_found_in_first(
    depth: nat,
    dir: Seq<char>,
    entries: Seq<Tree>,
    rule: Rule,
    kind: SearchKind,
)
    requires
        entries.len() > 0,
    ensures
        found_in(depth, dir, entries, rule, kind) == found_at(
            depth,
            dir,
            entries.first(),
            rule,
            kind,
        ) + found_in(depth, dir, entries.drop_first(), rule, kind),
{
    assert(seq![entries.first()] + entries.drop_first() == entries);
    lemma_found_in_order(depth, dir, seq![entries.first()], entries.drop_first(), rule, kind);
    lemma_found_in_one(depth, dir, entries.first(), rule, kind);
}

/// The sequence that one stretch of a search keeps: what has been found, then
/// what is in the directory `dir` with the entries `here`, then what the open
/// directories owe.
pub open spec fn in_all(
    rule: Rule,
    kind: SearchKind,
    found: Seq<Seq<char>>,
    open: Seq<Level>,
    below: Seq<Seq<Tree>>,
    depth: nat,
    dir: Seq<char>,
    here: Seq<Tree>,
) -> Seq<Seq<char>> {
    found + found_in(depth, dir, here, rule, kind) + owed(open, below, rule, kind)
}

/// What [`lemma_resume`] states of one stretch of a search.
pub open spec fn keeps_all(
    rule: Rule,
    kind: SearchKind,
    found: Seq<Seq<char>>,
    open: Seq<Level>,
    below: Seq<Seq<Tree>>,
    current: Level,
    here: Seq<Tree>,
) -> bool {
    let all = in_all(rule, kind, found, open, below, current.depth, current.dir, here);
    match resume(rule, kind, found, open, current) {
        Progress::Done(end) => end == all,
        Progress::Read(next) => {
            let (around, inner) = descend(open, below, current.depth, here);
            &&& next.rule == rule
            &&& next.kind == kind
            &&& mirrors(next.open, around)
            &&& in_all(rule, kind, next.found, next.open, around, next.depth, next.dir, inner)
                == all
        },
    }
}

proof fn lemma_mirrors_outer(open: Seq<Level>, below: Seq<Seq<Tree>>)
    requires
        mirrors(open, below),
        open.len() > 0,
    ensures
        mirrors(open.drop_last(), below.drop_last()),
        open.last().rest == listing_of(below.last()),
{
    let outer = open.drop_last();
    let outer_below = below.drop_last();
    assert forall|i: int| 0 <= i < outer.len() implies (#[trigger] outer[i]).rest == listing_of(
        outer_below[i],
    ) by {
        assert(open[i].rest == listing_of(below[i]));
    }
    assert(open[open.len() - 1].rest == listing_of(below[open.len() - 1]));
}

proof fn lemma_mirrors_wider(open: Seq<Level>, below: Seq<Seq<Tree>>, left: Level, later: Seq<Tree>)
    requires
        mirrors(open, below),
        left.rest == listing_of(later),
    ensures
        mirrors(open.push(left), below.push(later)),
        open.push(left).drop_last() == open,
        below.push(later).drop_last() == below,
{
    let wider = open.push(left);
    let wider_below = below.push(later);
    assert forall|i: int| 0 <= i < wider.len() implies (#[trigger] wider[i]).rest == listing_of(
        wider_below[i],
    ) by {
        if i < open.len() {
            assert(open[i].rest == listing_of(below[i]));
        }
    }
    assert(wider.drop_last() =~= open);
    assert(wider_below.drop_last() =~= below);
}

proof fn lemma_listing_of_rest(here: Seq<Tree>)
    requires
        here.len() > 0,
    ensures
        listing_of(here).first() == (Listed { name: here.first().name, kind: here.first().kind }),
        listing_of(here).drop_first() == listing_of(here.drop_first()),
{
    assert(listing_of(here).drop_first() =~= listing_of(here.drop_first()));
}

proof fn lemma_regroup<A>(a: Seq<A>, b: Seq<A>, c: Seq<A>, d: Seq<A>, e: Seq<A>)
    ensures
        (a + b) + c + (d + e) == a + ((b + c) + d) + e,
        (a + b) + d + e == a + ((b + Seq::<A>::empty()) + d) + e,
        a + Seq::<A>::empty() + (d + e) == a + d + e,
        a + Seq::<A>::empty() + Seq::<A>::empty() == a,
{
    assert((a + b) + c + (d + e) =~= a + ((b + c) + d) + e);
    assert((a + b) + d + e =~= a + ((b + Seq::<A>::empty()) + d) + e);
    assert(a + Seq::<A>::empty() + (d + e) =~= a + d + e);
    assert(a + Seq::<A>::empty() + Seq::<A>::empty() =~= a);
}

/// The end of a directory: the search goes back to the one around it.
proof fn lemma_resume_back(
    rule: Rule,
    kind: SearchKind,
    found: Seq<Seq<char>>,
    open: Seq<Level>,
    below: Seq<Seq<Tree>>,
    current: Level,
    here: Seq<Tree>,
)
    requires
        current.rest.len() == 0,
        here.len() == 0,
        open.len() > 0 ==> keeps_all(
            rule,
            kind,
            found,
            open.drop_last(),
            below.drop_last(),
            open.last(),
            below.last(),
        ),
    ensures
        keeps_all(rule, kind, found, open, below, current, here),
{
    let none = Seq::<Seq<char>>::empty();
    assert(found_in(current.depth, current.dir, here, rule, kind) == none);
    if open.len() == 0 {
        assert(owed(open, below, rule, kind) == none);
        lemma_regroup(found, none, none, none, none);
    } else {
        let back = found_in(open.last().depth, open.last().dir, below.last(), rule, kind);
        let outer_owed = owed(open.drop_last(), below.drop_last(), rule, kind);
        assert(owed(open, below, rule, kind) == back + outer_owed);
        lemma_regroup(found, none, none, back, outer_owed);
    }
}

/// An entry that is entered: the search stops to have it listed.
proof fn lemma_resume_enter(
    rule: Rule,
    kind: SearchKind,
    found: Seq<Seq<char>>,
    open: Seq<Level>,
    below: Seq<Seq<Tree>>,
    current: Level,
    here: Seq<Tree>,
)
    requires
        mirrors(open, below),
        current.rest == listing_of(here),
        here.len() > 0,
        is_entered(here.first().kind),
        current.depth > 0,
    ensures
        keeps_all(rule, kind, found, open, below, current, here),
{
    let tree = here.first();
    let later = here.drop_first();
    let left = Level { dir: current.dir, depth: current.depth, rest: current.rest.drop_first() };
    lemma_listing_of_rest(here);
    lemma_mirrors_wider(open, below, left, later);
    lemma_found_in_first(current.depth, current.dir, here, rule, kind);
    let own = own_hit(current.dir, tree.name, tree.kind, rule, kind);
    let inside = found_in(
        (current.depth - 1) as nat,
        join(current.dir, tree.name),
        tree.children,
        rule,
        kind,
    );
    let after = found_in(current.depth, current.dir, later, rule, kind);
    let rest_owed = owed(open, below, rule, kind);
    assert(found_at(current.depth, current.dir, tree, rule, kind) == own + inside);
    assert(owed(open.push(left), below.push(later), rule, kind) == after + rest_owed);
    lemma_regroup(found, own, inside, after, rest_owed);
}

/// An entry that is not entered: the search goes on with the next one.
proof fn lemma_resume_pass(
    rule: Rule,
    kind: SearchKind,
    found: Seq<Seq<char>>,
    open: Seq<Level>,
    below: Seq<Seq<Tree>>,
    current: Level,
    here: Seq<Tree>,
)
    requires
        current.rest == listing_of(here),
        here.len() > 0,
        !(is_entered(here.first().kind) && current.depth > 0),
        keeps_all(
            rule,
            kind,
            found + own_hit(current.dir, here.first().name, here.first().kind, rule, kind),
            open,
            below,
            Level { dir: current.dir, depth: current.depth, rest: current.rest.drop_first() },
            here.drop_first(),
        ),
    ensures
        keeps_all(rule, kind, found, open, below, current, here),
{
    let tree = here.first();
    let later = here.drop_first();
    lemma_listing_of_rest(here);
    lemma_found_in_first(current.depth, current.dir, here, rule, kind);
    let own = own_hit(current.dir, tree.name, tree.kind, rule, kind);
    let after = found_in(current.depth, current.dir, later, rule, kind);
    let rest_owed = owed(open, below, rule, kind);
    assert(found_at(current.depth, current.dir, tree, rule, kind) == own + Seq::<
        Seq<char>,
    >::empty());
    lemma_regroup(found, own, own, after, rest_owed);
}

/// One stretch of a search, from a listing to the next stop, loses nothing
/// and adds nothing: what has been found, what is in the awaited directory and
/// what is owed by the open ones make the same sequence before and after.
pub proof fn lemma_resume(
    rule: Rule,
    kind: SearchKind,
    found: Seq<Seq<char>>,
    open: Seq<Level>,
    below: Seq<Seq<Tree>>,
    current: Level,
    here: Seq<Tree>,
)
    requires
        mirrors(open, below),
        current.rest == listing_of(here),
    ensures
        keeps_all(rule, kind, found, open, below, current, here),
    decreases open.len(), here.len(),
{
    if here.len() == 0 {
        if open.len() > 0 {
            lemma_mirrors_outer(open, below);
            lemma_resume(
                rule,
                kind,
                found,
                open.drop_last(),
                below.drop_last(),
                open.last(),
                below.last(),
            );
        }
        lemma_resume_back(rule, kind, found, open, below, current, here);
    } else if is_entered(here.first().kind) && current.depth > 0 {
        lemma_resume_enter(rule, kind, found, open, below, current, here);
    } else {
        let tree = here.first();
        let left = Level { dir: current.dir, depth: current.depth, rest: current.rest.drop_first() };
        lemma_listing_of_rest(here);
        lemma_resume(
            rule,
            kind,
            found + own_hit(current.dir, tree.name, tree.kind, rule, kind),
            open,
            below,
            left,
            here.drop_first(),
        );
        lemma_resume_pass(rule, kind, found, open, below, current, here);
    }
}

proof fn lemma_entered_in_order(depth: nat, first: Seq<Tree>, then: Seq<Tree>)
    ensures
        entered_in(depth, first + then) == entered_in(depth, first) + entered_in(depth, then),
    decreases then.len(),
{
    if then.len() == 0 {
        assert(first + then == first);
    } else {
        assert((first + then).drop_last() == first + then.drop_last());
        lemma_entered_in_order(depth, first, then.drop_last());
    }
}

proof fn lemma_entered_in_first(depth: nat, entries: Seq<Tree>)
    requires
        entries.len() > 0,
    ensures
        entered_in(depth, entries) == entered_at(depth, entries.first()) + entered_in(
            depth,
            entries.drop_first(),
        ),
{
    let one = seq![entries.first()];
    assert(one + entries.drop_first() == entries);
    lemma_entered_in_order(depth, one, entries.drop_first());
    assert(one.drop_last().len() == 0);
    assert(entered_in(depth, one.drop_last()) == 0);
}

/// What [`lemma_resume_asks_less`] states of one stretch of a search.
pub open spec fn asks_less(
    rule: Rule,
    kind: SearchKind,
    found: Seq<Seq<char>>,
    open: Seq<Level>,
    below: Seq<Seq<Tree>>,
    current: Level,
    here: Seq<Tree>,
) -> bool {
    match resume(rule, kind, found, open, current) {
        Progress::Done(_) => true,
        Progress::Read(next) => {
            let (around, inner) = descend(open, below, current.depth, here);
            entered_in(next.depth, inner) + entered_owed(next.open, around) + 1 == entered_in(
                current.depth,
                here,
            ) + entered_owed(open, below)
        },
    }
}

/// Each stop of a search uses up one of the directories that it has yet to
/// enter.
pub proof fn lemma_resume_asks_less(
    rule: Rule,
    kind: SearchKind,
    found: Seq<Seq<char>>,
    open: Seq<Level>,
    below: Seq<Seq<Tree>>,
    current: Level,
    here: Seq<Tree>,
)
    requires
        mirrors(open, below),
        current.rest == listing_of(here),
    ensures
        asks_less(rule, kind, found, open, below, current, here),
    decreases open.len(), here.len(),
{
    if here.len() == 0 {
        if open.len() > 0 {
            lemma_mirrors_outer(open, below);
            lemma_resume_asks_less(
                rule,
                kind,
                found,
                open.drop_last(),
                below.drop_last(),
                open.last(),
                below.last(),
            );
        }
    } else {
        let tree = here.first();
        let later = here.drop_first();
        let left = Level { dir: current.dir, depth: current.depth, rest: current.rest.drop_first() };
        lemma_listing_of_rest(here);
        lemma_entered_in_first(current.depth, here);
        if is_entered(tree.kind) && current.depth > 0 {
            lemma_mirrors_wider(open, below, left, later);
            assert(entered_owed(open.push(left), below.push(later)) == entered_in(
                current.depth,
                later,
            ) + entered_owed(open, below));
        } else {
            lemma_resume_asks_less(
                rule,
                kind,
                found + own_hit(current.dir, tree.name, tree.kind, rule, kind),
                open,
                below,
                left,
                later,
            );
        }
    }
}

/// A search that is driven over a tree comes to its end, given as many
/// further listings as it has directories yet to enter; and at its end it has
/// found what was found before, what is in the awaited directory, and what the
/// open directories owed, in this order.
pub proof fn lemma_run(search: Search, below: Seq<Seq<Tree>>, entries: Seq<Tree>, fuel: nat)
    requires
        mirrors(search.open, below),
    ensures
        run(search, below, entries, fuel) matches Some(all) ==> all == in_all(
            search.rule,
            search.kind,
            search.found,
            search.open,
            below,
            search.depth,
            search.dir,
            entries,
        ),
        fuel >= entered_in(search.depth, entries) + entered_owed(search.open, below) ==> run(
            search,
            below,
            entries,
            fuel,
        ) is Some,
    decreases fuel,
{
    let current = search.awaited(listing_of(entries));
    lemma_resume(search.rule, search.kind, search.found, search.open, below, current, entries);
    lemma_resume_asks_less(
        search.rule,
        search.kind,
        search.found,
        search.open,
        below,
        current,
        entries,
    );
    match search.listed(listing_of(entries)) {
        Progress::Done(all) => {},
        Progress::Read(next) => {
            if fuel > 0 {
                let (around, inner) = descend(search.open, below, search.depth, entries);
                lemma_run(next, around, inner, (fuel - 1) as nat);
            }
        },
    }
}

/// A search that is started in a directory and driven over the tree below it
/// asks for the listing of that directory and of each directory that it
/// enters, then ends; and it has then found exactly what [`found_in`] says of
/// that tree, in the same order.
pub proof fn lemma_walker_finds_what_the_tree_holds(
    max_depth: nat,
    root: Seq<char>,
    entries: Seq<Tree>,
    rule: Rule,
    kind: SearchKind,
    fuel: nat,
)
    ensures
        run(Search::start(max_depth, root, rule, kind), Seq::empty(), entries, fuel) matches Some(
            all,
        ) ==> all == found_in(max_depth, root, entries, rule, kind),
        fuel >= entered_in(max_depth, entries) ==> run(
            Search::start(max_depth, root, rule, kind),
            Seq::empty(),
            entries,
            fuel,
        ) == Some(found_in(max_depth, root, entries, rule, kind)),
{
    let search = Search::start(max_depth, root, rule, kind);
    let below = Seq::<Seq<Tree>>::empty();
    let none = Seq::<Seq<char>>::empty();
    lemma_run(search, below, entries, fuel);
    assert(owed(search.open, below, rule, kind) == none);
    assert(entered_owed(search.open, below) == 0);
    assert(none + found_in(max_depth, root, entries, rule, kind) + none =~= found_in(
        max_depth,
        root,
        entries,
        rule,
        kind,
    ));
}

} // verus!
