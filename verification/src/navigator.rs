//! A cursor into a scanned tree.
//!
//! The cursor is the path from the root of the tree to the directory shown:
//! a stack of entries, root first, that never empties. It never changes the
//! tree.

use vstd::prelude::*;
use crate::codec::copy_range;
use crate::item::{views, Item};
use crate::tree::{lemma_total_size_monotonic, Tree};

verus! {

/// Why the cursor did not move.
#[derive(Debug, Clone, Copy, PartialEq, Eq, Structural)]
pub enum NavigationError {
    /// The directory shown has no child of that name.
    NotFound,
    /// The child of that name is a file.
    NotADirectory,
    /// The directory shown is the root of the tree.
    AlreadyAtTop,
}

/// The position of the first of `children`, from `from` on, that is called
/// `name`, or the number of children where none is.
pub open spec fn child_index(children: Seq<Tree>, name: Seq<u8>, from: int) -> int
    decreases children.len() - from,
{
    if from < 0 || from >= children.len() {
        children.len() as int
    } else if children[from].name == name {
        from
    } else {
        child_index(children, name, from + 1)
    }
}

/// A path through a tree: not empty, every entry after the first a
/// directory among the children of the entry before it, and the whole tree
/// small enough for its total to fit in 64 bits.
pub open spec fn is_path(path: Seq<Tree>) -> bool {
    &&& path.len() >= 1
    &&& forall|i: int| 0 <= i < path.len() ==> (#[trigger] path[i]).total_size() <= u64::MAX
    &&& forall|i: int|
        1 <= i < path.len() ==> (#[trigger] path[i]).is_directory && path[i - 1].children.contains(
            path[i],
        )
}

/// The path after a move into the child called `name` of its last entry, or
/// the reason why there is no such move.
pub open spec fn entered(path: Seq<Tree>, name: Seq<u8>) -> Result<Seq<Tree>, NavigationError> {
    let children = path.last().children;
    let i = child_index(children, name, 0);
    if i >= children.len() {
        Err(NavigationError::NotFound)
    } else if !children[i].is_directory {
        Err(NavigationError::NotADirectory)
    } else {
        Ok(path.push(children[i]))
    }
}

/// The path after a move up to the parent of its last entry, or the reason
/// why there is no such move.
pub open spec fn ascended(path: Seq<Tree>) -> Result<Seq<Tree>, NavigationError> {
    if path.len() <= 1 {
        Err(NavigationError::AlreadyAtTop)
    } else {
        Ok(path.drop_last())
    }
}

/// Whether two byte strings are the same.
fn same_bytes(a: &[u8], b: &[u8]) -> (same: bool)
    ensures
        same == (a@ == b@),
{
    if a.len() != b.len() {
        return false;
    }
    let mut i: usize = 0;
    while i < a.len()
        invariant
            0 <= i <= a@.len(),
            a@.len() == b@.len(),
            a@.take(i as int) == b@.take(i as int),
        decreases a@.len() - i,
    {
        if a[i] != b[i] {
            assert(a@[i as int] != b@[i as int]);
            return false;
        }
        i = i + 1;
        assert(a@.take(i as int) =~= a@.take(i - 1).push(a@[i - 1]));
        assert(b@.take(i as int) =~= b@.take(i - 1).push(b@[i - 1]));
    }
    assert(a@.take(i as int) =~= a@);
    assert(b@.take(i as int) =~= b@);
    true
}

/// The cursor: the entries from the root down to the directory shown.
pub struct Navigator<'a> {
    root: &'a Item,
    below: Vec<&'a Item>,
}

impl<'a> View for Navigator<'a> {
    type V = Seq<Tree>;

    closed spec fn view(&self) -> Seq<Tree> {
        path_of(self.root, self.below@)
    }
}

/// The path that starts at `root` and goes on through `below`.
spec fn path_of(root: &Item, below: Seq<&Item>) -> Seq<Tree> {
    seq![root@] + Seq::new(below.len(), |i: int| below[i]@)
}

/// A path stays a path when its last entry is left.
proof fn lemma_shorter_path(path: Seq<Tree>)
    requires
        is_path(path),
        path.len() > 1,
    ensures
        is_path(path.drop_last()),
{
    let shorter = path.drop_last();
    assert forall|i: int| 0 <= i < shorter.len() implies (#[trigger] shorter[i]).total_size()
        <= u64::MAX by {
        assert(shorter[i] == path[i]);
    }
    assert forall|i: int| 1 <= i < shorter.len() implies (#[trigger] shorter[i]).is_directory
        && shorter[i - 1].children.contains(shorter[i]) by {
        assert(shorter[i] == path[i]);
        assert(shorter[i - 1] == path[i - 1]);
    }
}

/// A path stays a path when a directory among the children of its last
/// entry is added.
proof fn lemma_longer_path(path: Seq<Tree>, i: int)
    requires
        is_path(path),
        0 <= i < path.last().children.len(),
        path.last().children[i].is_directory,
    ensures
        is_path(path.push(path.last().children[i])),
{
    let child = path.last().children[i];
    let longer = path.push(child);
    lemma_total_size_monotonic(path.last(), i);
    assert(path.last().children.contains(child));
    assert forall|j: int| 0 <= j < longer.len() implies (#[trigger] longer[j]).total_size()
        <= u64::MAX by {
        if j < path.len() {
            assert(longer[j] == path[j]);
        }
    }
    assert forall|j: int| 1 <= j < longer.len() implies (#[trigger] longer[j]).is_directory
        && longer[j - 1].children.contains(longer[j]) by {
        if j < path.len() {
            assert(longer[j] == path[j]);
            assert(longer[j - 1] == path[j - 1]);
        } else {
            assert(longer[j - 1] == path.last());
        }
    }
}

/// The root alone is a path.
proof fn lemma_root_path(path: Seq<Tree>)
    requires
        is_path(path),
    ensures
        is_path(seq![path[0]]),
{
}

impl<'a> Navigator<'a> {
    #[verifier::type_invariant]
    spec fn inv(self) -> bool {
        is_path(self@)
    }

    /// The cursor at the root of a tree.
    pub fn new(root: &'a Item) -> (nav: Self)
        requires
            root@.total_size() <= u64::MAX,
        ensures
            nav@ == seq![root@],
    {
        let nav = Navigator { root, below: Vec::new() };
        assert(nav@ =~= seq![root@]);
        nav
    }

    /// The directory shown.
    pub fn current(&self) -> (entry: &'a Item)
        ensures
            is_path(self@),
            entry@ == self@.last(),
    {
        proof {
            use_type_invariant(self);
        }
        if self.below.len() == 0 {
            self.root
        } else {
            self.below[self.below.len() - 1]
        }
    }

    /// Moves into the child of the directory shown that is called `name`:
    /// the first of that name, and only where it is a directory.
    pub fn enter(&mut self, name: &[u8]) -> (result: Result<(), NavigationError>)
        ensures
            match entered(old(self)@, name@) {
                Ok(path) => result is Ok && final(self)@ == path,
                Err(e) => result == Err::<(), _>(e) && final(self)@ == old(self)@,
            },
    {
        let current = self.current();
        let children = current.children();
        let ghost kids = current@.children;
        let mut i: usize = 0;
        while i < children.len() && !same_bytes(children[i].name().as_slice(), name)
            invariant
                0 <= i <= children@.len(),
                kids == views(children@),
                child_index(kids, name@, 0) == child_index(kids, name@, i as int),
            decreases children@.len() - i,
        {
            i = i + 1;
        }
        if i >= children.len() {
            return Err(NavigationError::NotFound);
        }
        let child: &'a Item = &children[i];
        if !child.is_directory() {
            return Err(NavigationError::NotADirectory);
        }
        let ghost before = self@;
        let mut below: Vec<&'a Item> = Vec::new();
        proof {
            assert(kids[i as int] == child@);
            lemma_longer_path(before, i as int);
            lemma_root_path(before);
            assert(path_of(self.root, below@) =~= seq![before[0]]);
        }
        core::mem::swap(&mut below, &mut self.below);
        below.push(child);
        assert(path_of(self.root, below@) =~= before.push(child@));
        core::mem::swap(&mut below, &mut self.below);
        Ok(())
    }

    /// Moves up to the parent of the directory shown, unless the root is
    /// shown: the cursor never leaves the tree.
    pub fn ascend(&mut self) -> (result: Result<(), NavigationError>)
        ensures
            match ascended(old(self)@) {
                Ok(path) => result is Ok && final(self)@ == path,
                Err(e) => result == Err::<(), _>(e) && final(self)@ == old(self)@,
            },
    {
        proof {
            use_type_invariant(&*self);
        }
        if self.below.len() == 0 {
            return Err(NavigationError::AlreadyAtTop);
        }
        let ghost before = self@;
        let mut below: Vec<&'a Item> = Vec::new();
        proof {
            lemma_shorter_path(before);
            lemma_root_path(before);
            assert(path_of(self.root, below@) =~= seq![before[0]]);
        }
        core::mem::swap(&mut below, &mut self.below);
        below.pop();
        assert(path_of(self.root, below@) =~= before.drop_last());
        core::mem::swap(&mut below, &mut self.below);
        Ok(())
    }

    /// The names on the path from the root to the directory shown.
    pub fn breadcrumb(&self) -> (names: Vec<Vec<u8>>)
        ensures
            names@.len() == self@.len(),
            forall|i: int| 0 <= i < names@.len() ==> (#[trigger] names@[i])@ == self@[i].name,
    {
        let mut names: Vec<Vec<u8>> = Vec::new();
        let root_name = self.root.name();
        names.push(copy_range(root_name.as_slice(), 0, root_name.len()));
        let mut i: usize = 0;
        while i < self.below.len()
            invariant
                0 <= i <= self.below@.len(),
                names@.len() == i + 1,
                forall|j: int| 0 <= j < names@.len() ==> (#[trigger] names@[j])@ == self@[j].name,
            decreases self.below@.len() - i,
        {
            let name = self.below[i].name();
            names.push(copy_range(name.as_slice(), 0, name.len()));
            i = i + 1;
        }
        names
    }

    /// What there is to show of the directory shown: its total size, the
    /// number of its children, and a row for each child, directories before
    /// files and each group in the order of the children.
    pub fn listing(&self) -> (listing: Listing<'a>)
        ensures
            listing.total == self@.last().total_size(),
            listing.child_count == self@.last().children.len(),
            row_entries(listing.rows@) == listed(self@.last()),
            forall|i: int|
                0 <= i < listing.rows@.len() ==> {
                    let row = #[trigger] listing.rows@[i];
                    row.total == row.entry@.total_size() && row.percent_hundredths
                        == percent_hundredths(row.total as nat, listing.total as nat)
                },
    {
        let current = self.current();
        let total = current.total();
        let children = current.children();
        let ghost kids = current@.children;
        let mut rows: Vec<Row<'a>> = Vec::new();
        assert(kids.take(0) =~= Seq::<Tree>::empty());
        assert(row_entries(rows@) =~= Seq::<Tree>::empty());
        let mut i: usize = 0;
        while i < children.len()
            invariant
                0 <= i <= children@.len(),
                kids == views(children@),
                kids == current@.children,
                total == current@.total_size(),
                row_entries(rows@) == kids.take(i as int).filter(is_dir()),
                forall|j: int|
                    0 <= j < rows@.len() ==> {
                        let row = #[trigger] rows@[j];
                        row.total == row.entry@.total_size() && row.percent_hundredths
                            == percent_hundredths(row.total as nat, total as nat)
                    },
            decreases children@.len() - i,
        {
            let child: &'a Item = &children[i];
            proof {
                assert(kids.take(i + 1) =~= kids.take(i as int).push(kids[i as int]));
                kids.take(i as int).lemma_filter_push(kids[i as int], is_dir());
                lemma_total_size_monotonic(current@, i as int);
            }
            if child.is_directory() {
                let ghost before = row_entries(rows@);
                let child_total = child.total();
                rows.push(
                    Row {
                        entry: child,
                        total: child_total,
                        percent_hundredths: percent(child_total, total),
                    },
                );
                assert(row_entries(rows@) =~= before.push(child@));
            }
            i = i + 1;
        }
        assert(kids.take(i as int) =~= kids);
        let ghost dirs = kids.filter(is_dir());
        assert(kids.take(0) =~= Seq::<Tree>::empty());
        assert(dirs + Seq::<Tree>::empty() =~= dirs);
        i = 0;
        while i < children.len()
            invariant
                0 <= i <= children@.len(),
                kids == views(children@),
                kids == current@.children,
                total == current@.total_size(),
                dirs == kids.filter(is_dir()),
                row_entries(rows@) == dirs + kids.take(i as int).filter(is_file()),
                forall|j: int|
                    0 <= j < rows@.len() ==> {
                        let row = #[trigger] rows@[j];
                        row.total == row.entry@.total_size() && row.percent_hundredths
                            == percent_hundredths(row.total as nat, total as nat)
                    },
            decreases children@.len() - i,
        {
            let child: &'a Item = &children[i];
            proof {
                assert(kids.take(i + 1) =~= kids.take(i as int).push(kids[i as int]));
                kids.take(i as int).lemma_filter_push(kids[i as int], is_file());
                lemma_total_size_monotonic(current@, i as int);
            }
            if !child.is_directory() {
                let ghost before = row_entries(rows@);
                let child_total = child.total();
                rows.push(
                    Row {
                        entry: child,
                        total: child_total,
                        percent_hundredths: percent(child_total, total),
                    },
                );
                assert(row_entries(rows@) =~= before.push(child@));
                assert(dirs + kids.take(i as int).filter(is_file()).push(child@) =~= (dirs
                    + kids.take(i as int).filter(is_file())).push(child@));
            }
            i = i + 1;
        }
        assert(kids.take(i as int) =~= kids);
        Listing { total, child_count: children.len(), rows }
    }

    /// Carries out a command: moves the cursor where the command asks for a
    /// move that exists, and says whether there is something new to show.
    pub fn step(&mut self, command: &Command) -> (outcome: Outcome)
        ensures
            match *command {
                Command::Exit => outcome == Outcome::Finished && final(self)@ == old(self)@,
                Command::Ascend => match ascended(old(self)@) {
                    Ok(path) => outcome == Outcome::Moved && final(self)@ == path,
                    Err(e) => outcome == Outcome::Rejected(e) && final(self)@ == old(self)@,
                },
                Command::Enter(name) => match entered(old(self)@, name@) {
                    Ok(path) => outcome == Outcome::Moved && final(self)@ == path,
                    Err(e) => outcome == Outcome::Rejected(e) && final(self)@ == old(self)@,
                },
            },
    {
        match command {
            Command::Exit => Outcome::Finished,
            Command::Ascend => match self.ascend() {
                Ok(_) => Outcome::Moved,
                Err(e) => Outcome::Rejected(e),
            },
            Command::Enter(name) => match self.enter(name.as_slice()) {
                Ok(_) => Outcome::Moved,
                Err(e) => Outcome::Rejected(e),
            },
        }
    }
}

/// One child of the directory shown.
pub struct Row<'a> {
    /// The child.
    pub entry: &'a Item,
    /// The total size of the child.
    pub total: u64,
    /// The share of the child in the total size of the directory shown, in
    /// hundredths of a percent.
    pub percent_hundredths: u64,
}

/// What there is to show of one directory.
pub struct Listing<'a> {
    /// The total size of the directory.
    pub total: u64,
    /// The number of its children.
    pub child_count: usize,
    /// Its children, directories first.
    pub rows: Vec<Row<'a>>,
}

/// The test "is a directory".
pub open spec fn is_dir() -> spec_fn(Tree) -> bool {
    |t: Tree| t.is_directory
}

/// The test "is a file".
pub open spec fn is_file() -> spec_fn(Tree) -> bool {
    |t: Tree| !t.is_directory
}

/// The children of a directory in the order in which they are listed:
/// directories before files, each group in the order of the children.
pub open spec fn listed(current: Tree) -> Seq<Tree> {
    current.children.filter(is_dir()) + current.children.filter(is_file())
}

/// The entries that the rows stand for.
pub open spec fn row_entries(rows: Seq<Row>) -> Seq<Tree> {
    Seq::new(rows.len(), |i: int| rows[i].entry@)
}

/// The share of `part` in `whole` in hundredths of a percent, rounded to the
/// nearest, halves upward; nothing has a share in a whole of zero.
pub open spec fn percent_hundredths(part: nat, whole: nat) -> nat {
    if whole == 0 {
        0
    } else {
        (part * 10000 + whole / 2) / whole
    }
}

/// The share of `part` in `whole` in hundredths of a percent.
fn percent(part: u64, whole: u64) -> (share: u64)
    requires
        part <= whole,
    ensures
        share == percent_hundredths(part as nat, whole as nat),
        share <= 10000,
{
    if whole == 0 {
        return 0;
    }
    let scaled: u128 = (part as u128) * 10000 + (whole / 2) as u128;
    let share: u128 = scaled / (whole as u128);
    assert(share <= 10000) by (nonlinear_arith)
        requires
            share == scaled / (whole as u128),
            whole > 0,
            scaled < 10001 * whole,
    ;
    share as u64
}

/// What the user asks for.
#[derive(Debug, PartialEq, Eq)]
pub enum Command {
    /// End the session.
    Exit,
    /// Go up to the parent directory.
    Ascend,
    /// Go into the child directory of this name.
    Enter(Vec<u8>),
}

/// What became of a command.
#[derive(Debug, Clone, Copy, PartialEq, Eq, Structural)]
pub enum Outcome {
    /// The cursor moved: there is a new directory to show.
    Moved,
    /// The cursor stays where it is, for the reason given.
    Rejected(NavigationError),
    /// The session is over.
    Finished,
}

/// A line feed or a carriage return.
pub open spec fn is_line_end(b: u8) -> bool {
    b == 10 || b == 13
}

/// The line without the line feeds and carriage returns at its end.
pub open spec fn trimmed(line: Seq<u8>) -> Seq<u8>
    decreases line.len(),
{
    if line.len() > 0 && is_line_end(line.last()) {
        trimmed(line.drop_last())
    } else {
        line
    }
}

/// The two full stops that ask for a move up.
pub open spec fn parent_name() -> Seq<u8> {
    seq![46u8, 46u8]
}

/// Reads a line of input as a command: an empty line ends the session, two
/// full stops ask for a move up, anything else is the name of a child to go
/// into. Line feeds and carriage returns at the end of the line do not count.
pub fn parse_command(line: &[u8]) -> (command: Command)
    ensures
        match command {
            Command::Exit => trimmed(line@).len() == 0,
            Command::Ascend => trimmed(line@) == parent_name(),
            Command::Enter(name) => name@ == trimmed(line@) && name@.len() > 0 && name@
                != parent_name(),
        },
{
    let mut end: usize = line.len();
    assert(line@.take(end as int) =~= line@);
    while end > 0 && (line[end - 1] == 10 || line[end - 1] == 13)
        invariant
            0 <= end <= line@.len(),
            trimmed(line@) == trimmed(line@.take(end as int)),
        decreases end,
    {
        assert(line@.take(end as int).drop_last() =~= line@.take(end - 1));
        end = end - 1;
    }
    if end == 0 {
        return Command::Exit;
    }
    let name = copy_range(line, 0, end);
    assert(name@ =~= line@.take(end as int));
    if end == 2 && line[0] == 46 && line[1] == 46 {
        assert(name@ =~= parent_name());
        return Command::Ascend;
    }
    assert(name@ != parent_name()) by {
        if name@ == parent_name() {
            assert(name@.len() == 2);
            assert(name@[0] == 46u8 && name@[1] == 46u8);
        }
    }
    Command::Enter(name)
}

/// Going into a child directory and up again leads back to where one was:
/// the same path, and so the same breadcrumb and the same directory shown.
pub proof fn lemma_enter_then_ascend(path: Seq<Tree>, name: Seq<u8>)
    requires
        is_path(path),
        entered(path, name) is Ok,
    ensures
        ascended(entered(path, name)->Ok_0) == Ok::<_, NavigationError>(path),
{
    let child = path.last().children[child_index(path.last().children, name, 0)];
    assert(path.push(child).drop_last() =~= path);
}

/// At the root there is no way up: the move is refused as already at the
/// top.
pub proof fn lemma_ascend_at_root(root: Tree)
    ensures
        ascended(seq![root]) == Err::<Seq<Tree>, _>(NavigationError::AlreadyAtTop),
{
}

/// Where a child is found, it is the first of its name, and where none is
/// found, no child has the name.
pub proof fn lemma_child_index(children: Seq<Tree>, name: Seq<u8>, from: int)
    requires
        0 <= from <= children.len(),
    ensures
        from <= child_index(children, name, from) <= children.len(),
        forall|i: int|
            from <= i < child_index(children, name, from) ==> (#[trigger] children[i]).name != name,
        child_index(children, name, from) < children.len() ==> children[child_index(
            children,
            name,
            from,
        )].name == name,
    decreases children.len() - from,
{
    if from < children.len() && children[from].name != name {
        lemma_child_index(children, name, from + 1);
    }
}

/// Every move leads from a path to a path: the cursor never leaves the tree
/// and its stack never empties.
pub proof fn lemma_moves_keep_path(path: Seq<Tree>, name: Seq<u8>)
    requires
        is_path(path),
    ensures
        entered(path, name) matches Ok(next) ==> is_path(next),
        ascended(path) matches Ok(next) ==> is_path(next),
{
    if let Ok(next) = entered(path, name) {
        lemma_child_index(path.last().children, name, 0);
        lemma_longer_path(path, child_index(path.last().children, name, 0));
    }
    if let Ok(next) = ascended(path) {
        lemma_shorter_path(path);
    }
}

} // verus!
