//! Building the tree of a directory subtree, step by step.
//!
//! The crawl does no input or output of its own. It says what it needs to
//! know next, the metadata of a path or the children of a directory, and its
//! caller finds that out and hands it in. The rules are the crawl's: a path
//! that is no directory becomes a leaf of its length; a directory has no size
//! of its own and holds its children by non-increasing total size; a child
//! that cannot be read is left out; the root that cannot be read ends the
//! crawl.

use vstd::prelude::*;
use vstd::utf8::{encode_utf8, encode_utf8_valid_utf8, valid_utf8};
use crate::format::names_text;
use crate::item::{views, Item};
use crate::order::{display_order, lemma_display_order, lemma_stable_sorted_entries, sort_with_totals};
use crate::tree::Tree;

verus! {

/// What the metadata of a path says, read without following a symbolic
/// link.
pub struct Metadata {
    /// The final component of the path.
    pub name: String,
    /// Whether the path is a directory.
    pub is_directory: bool,
    /// The length in bytes.
    pub len: u64,
}

/// What the metadata of a path says, as a mathematical value.
pub struct Facts {
    /// The final component of the path, as UTF-8.
    pub name: Seq<u8>,
    /// Whether the path is a directory.
    pub is_directory: bool,
    /// The length in bytes.
    pub len: u64,
}

impl View for Metadata {
    type V = Facts;

    open spec fn view(&self) -> Facts {
        Facts { name: encode_utf8(self.name@), is_directory: self.is_directory, len: self.len }
    }
}

/// The model of metadata that may be missing.
pub open spec fn facts_of(metadata: Option<Metadata>) -> Option<Facts> {
    match metadata {
        Some(m) => Some(m@),
        None => None,
    }
}

/// Why a crawl gave no tree.
#[derive(Debug, Clone, Copy, PartialEq, Eq, Structural)]
pub enum CrawlError {
    /// The root could not be read.
    RootUnreadable,
    /// The sizes add up to more than fits in 64 bits.
    TooLarge,
}

/// A directory that is being read.
struct Frame {
    name: Vec<u8>,
    count: usize,
    next: usize,
    children: Vec<Item>,
    totals: Vec<u64>,
    total: u64,
}

/// A directory that is being read, as a mathematical value.
pub struct Open {
    /// The name of the directory.
    pub name: Seq<u8>,
    /// The number of its children.
    pub count: nat,
    /// The position of the child to visit next.
    pub next: nat,
    /// The children read so far, those left out not counted, in the order
    /// in which they were found.
    pub children: Seq<Tree>,
}

impl View for Frame {
    type V = Open;

    closed spec fn view(&self) -> Open {
        Open {
            name: self.name@,
            count: self.count as nat,
            next: self.next as nat,
            children: views(self.children@),
        }
    }
}

impl Frame {
    /// The frame counts right: its total is the sum over its children, and
    /// a child is still to come.
    spec fn valid(self) -> bool {
        &&& self.total == Tree::sum_totals(views(self.children@))
        &&& valid_utf8(self.name@)
        &&& self.totals@.len() == self.children@.len()
        &&& forall|i: int|
            0 <= i < self.children@.len() ==> #[trigger] self.totals@[i]
                == self.children@[i]@.total_size()
        &&& self.next < self.count
        &&& forall|i: int|
            0 <= i < self.children@.len() ==> acceptable((#[trigger] self.children@[i])@)
    }
}

/// A tree as a crawl builds it: files are leaves, every name is text, the
/// children of every directory stand in display order, and the total fits
/// in 64 bits.
pub open spec fn acceptable(t: Tree) -> bool {
    t.wf() && t.sorted() && names_text(t) && t.total_size() <= u64::MAX
}

spec fn frame_views(frames: Seq<Frame>) -> Seq<Open> {
    Seq::new(frames.len(), |i: int| frames[i]@)
}

spec fn frames_valid(frames: Seq<Frame>) -> bool {
    forall|i: int| 0 <= i < frames.len() ==> (#[trigger] frames[i]).valid()
}

/// The stage of a crawl, as a mathematical value.
pub enum Progress {
    /// The metadata of the next path is awaited: of the root where no
    /// directory is being read, else of child `next` of the innermost.
    Stat(Seq<Open>),
    /// The children of the directory called `name` are awaited, whose
    /// metadata was read last.
    List(Seq<Open>, Seq<u8>),
    /// The crawl is over.
    Finished(Result<Tree, CrawlError>),
}

/// The directory that a frame stands for once all its children are read.
pub open spec fn closed(name: Seq<u8>, children: Seq<Tree>) -> Tree {
    Tree { name, own_size: 0, is_directory: true, children: display_order(children) }
}

/// The crawl after the path that was awaited has turned into `result`: an
/// entry, or nothing where the path could not be read.
///
/// Outside every directory the path was the root, and the crawl is over.
/// Inside a directory the entry joins the children read so far; after the
/// last child the directory is closed and becomes the result for the
/// directory around it.
pub open spec fn delivered(frames: Seq<Open>, result: Option<Tree>) -> Progress
    decreases frames.len(),
{
    if frames.len() == 0 {
        match result {
            Some(t) => Progress::Finished(Ok(t)),
            None => Progress::Finished(Err(CrawlError::RootUnreadable)),
        }
    } else {
        let top = frames.last();
        let children = match result {
            Some(t) => top.children.push(t),
            None => top.children,
        };
        if Tree::sum_totals(children) > u64::MAX {
            Progress::Finished(Err(CrawlError::TooLarge))
        } else if top.next + 1 < top.count {
            Progress::Stat(
                frames.drop_last().push(
                    Open { name: top.name, count: top.count, next: top.next + 1, children },
                ),
            )
        } else {
            delivered(frames.drop_last(), Some(closed(top.name, children)))
        }
    }
}

/// The crawl after the metadata that was awaited has come, or has failed
/// to.
pub open spec fn stat_resolved(frames: Seq<Open>, facts: Option<Facts>) -> Progress {
    match facts {
        None => delivered(frames, None),
        Some(m) => if m.is_directory {
            Progress::List(frames, m.name)
        } else {
            delivered(
                frames,
                Some(
                    Tree {
                        name: m.name,
                        own_size: m.len,
                        is_directory: false,
                        children: Seq::empty(),
                    },
                ),
            )
        },
    }
}

/// The crawl after the number of children that was awaited has come, or has
/// failed to.
pub open spec fn list_resolved(frames: Seq<Open>, name: Seq<u8>, count: Option<usize>) -> Progress {
    match count {
        None => delivered(frames, None),
        Some(n) => if n == 0 {
            delivered(frames, Some(closed(name, Seq::empty())))
        } else {
            Progress::Stat(
                frames.push(Open { name, count: n as nat, next: 0, children: Seq::empty() }),
            )
        },
    }
}

/// A crawl that awaits the metadata of a path.
pub struct Crawler {
    frames: Vec<Frame>,
}

/// A crawl that awaits the children of a directory.
pub struct Opening {
    frames: Vec<Frame>,
    name: Vec<u8>,
}

/// The stage of a crawl.
pub enum Stage {
    /// The metadata of a path is awaited.
    Stat(Crawler),
    /// The children of the directory whose metadata was read last are
    /// awaited.
    List(Opening),
    /// The crawl is over.
    Finished(Result<Item, CrawlError>),
}

/// What a step of the crawl led to.
pub struct Step {
    /// The stage the crawl is in now.
    pub stage: Stage,
    /// Whether the path that was just resolved was left out of the tree
    /// because it could not be read.
    pub skipped: bool,
}

impl View for Crawler {
    type V = Seq<Open>;

    closed spec fn view(&self) -> Seq<Open> {
        frame_views(self.frames@)
    }
}

impl Opening {
    /// The directories that are being read, outermost first.
    pub closed spec fn frames(&self) -> Seq<Open> {
        frame_views(self.frames@)
    }

    /// The name of the directory whose children are awaited.
    pub closed spec fn name(&self) -> Seq<u8> {
        self.name@
    }

    #[verifier::type_invariant]
    spec fn inv(self) -> bool {
        frames_valid(self.frames@) && valid_utf8(self.name@)
    }
}

impl View for Stage {
    type V = Progress;

    open spec fn view(&self) -> Progress {
        match *self {
            Stage::Stat(crawler) => Progress::Stat(crawler@),
            Stage::List(opening) => Progress::List(opening.frames(), opening.name()),
            Stage::Finished(Ok(item)) => Progress::Finished(Ok(item@)),
            Stage::Finished(Err(e)) => Progress::Finished(Err(e)),
        }
    }
}

proof fn lemma_sum_of_one_more(children: Seq<Tree>, t: Tree)
    ensures
        Tree::sum_totals(children.push(t)) == Tree::sum_totals(children) + t.total_size(),
{
    assert(children.push(t).drop_last() =~= children);
}

proof fn lemma_closed_acceptable(name: Seq<u8>, children: Seq<Tree>)
    requires
        valid_utf8(name),
        forall|i: int| 0 <= i < children.len() ==> acceptable(#[trigger] children[i]),
        Tree::sum_totals(children) <= u64::MAX,
    ensures
        acceptable(closed(name, children)),
        closed(name, children).total_size() == Tree::sum_totals(children),
{
    let t = closed(name, children);
    lemma_display_order(children);
    assert forall|j: int| 0 <= j < t.children.len() implies acceptable(#[trigger] t.children[j]) by {
        lemma_stable_sorted_entries(children, t.children, j);
        let i = choose|i: int| 0 <= i < children.len() && children[i] == t.children[j];
        assert(acceptable(children[i]));
    }
}

/// The model of an entry that may be missing.
spec fn tree_of(result: Option<Item>) -> Option<Tree> {
    match result {
        Some(item) => Some(item@),
        None => None,
    }
}

/// Hands `result` to the innermost directory and closes every directory
/// that is complete with it.
fn deliver(frames: Vec<Frame>, result: Option<Item>, size: u64) -> (stage: Stage)
    requires
        frames_valid(frames@),
        result matches Some(item) ==> acceptable(item@) && size == item@.total_size(),
    ensures
        stage@ == delivered(frame_views(frames@), tree_of(result)),
        stage matches Stage::Finished(Ok(item)) ==> acceptable(item@),
{
    let ghost goal = delivered(frame_views(frames@), tree_of(result));
    let mut stack = frames;
    let mut pending = result;
    let mut size = size;
    loop
        invariant
            frames_valid(stack@),
            pending matches Some(item) ==> acceptable(item@) && size == item@.total_size(),
            goal == delivered(frame_views(frames@), tree_of(result)),
            goal == delivered(frame_views(stack@), tree_of(pending)),
        decreases stack@.len(),
    {
        let ghost before = stack@;
        let ghost opens = frame_views(before);
        let ghost handed = tree_of(pending);
        match stack.pop() {
            None => {
                assert(opens.len() == 0);
                let stage = Stage::Finished(
                    match pending {
                        Some(item) => Ok(item),
                        None => Err(CrawlError::RootUnreadable),
                    },
                );
                assert(stage@ == delivered(opens, handed));
                return stage;
            },
            Some(frame) => {
                proof {
                    assert(frame == before[before.len() - 1]);
                    assert(frame.valid());
                    assert(opens.last() == frame@);
                    assert(frame_views(stack@) =~= opens.drop_last());
                    assert forall|i: int| 0 <= i < stack@.len() implies (#[trigger] stack@[i]).valid() by {
                        assert(stack@[i] == before[i]);
                    }
                }
                let Frame { name, count, next, children, totals, total } = frame;
                let mut children = children;
                let mut totals = totals;
                let mut total = total;
                let ghost old_children = views(children@);
                if let Some(item) = pending {
                    proof {
                        lemma_sum_of_one_more(old_children, item@);
                    }
                    match total.checked_add(size) {
                        None => {
                            let stage = Stage::Finished(Err(CrawlError::TooLarge));
                            assert(stage@ == delivered(opens, handed));
                            return stage;
                        },
                        Some(sum) => {
                            total = sum;
                            children.push(item);
                            totals.push(size);
                            assert(views(children@) =~= old_children.push(item@));
                        },
                    }
                }
                let ghost grown = views(children@);
                assert(grown == match handed {
                    Some(t) => old_children.push(t),
                    None => old_children,
                });
                assert(Tree::sum_totals(grown) == total);
                let next = next + 1;
                if next < count {
                    let ghost rest = stack@;
                    let updated = Frame { name, count, next, children, totals, total };
                    stack.push(updated);
                    proof {
                        assert(frame_views(stack@) =~= frame_views(rest).push(updated@));
                        assert forall|i: int| 0 <= i < stack@.len() implies (#[trigger] stack@[i]).valid() by {
                            if i < rest.len() {
                                assert(stack@[i] == rest[i]);
                            }
                        }
                    }
                    let stage = Stage::Stat(Crawler { frames: stack });
                    assert(stage@ == delivered(opens, handed));
                    return stage;
                }
                proof {
                    lemma_closed_acceptable(name@, grown);
                    assert(delivered(opens, handed) == delivered(
                        opens.drop_last(),
                        Some(closed(name@, grown)),
                    ));
                }
                pending = Some(Item::assemble(name, 0, true, sort_with_totals(children, totals)));
                size = total;
            },
        }
    }
}

impl Crawler {
    #[verifier::type_invariant]
    spec fn inv(self) -> bool {
        frames_valid(self.frames@)
    }

    /// A crawl at its start: it awaits the metadata of the root.
    pub fn new() -> (crawler: Crawler)
        ensures
            crawler@ == Seq::<Open>::empty(),
    {
        let crawler = Crawler { frames: Vec::new() };
        assert(crawler@ =~= Seq::<Open>::empty());
        crawler
    }

    /// The number of directories that are being read.
    pub fn depth(&self) -> (depth: usize)
        ensures
            depth == self@.len(),
    {
        self.frames.len()
    }

    /// The path whose metadata is awaited: `None` for the root, else the
    /// position, among the children of the innermost directory that is being
    /// read, of the child to visit.
    pub fn target(&self) -> (target: Option<usize>)
        ensures
            match target {
                None => self@.len() == 0,
                Some(index) => self@.len() > 0 && index == self@.last().next && index
                    < self@.last().count,
            },
    {
        proof {
            use_type_invariant(self);
        }
        if self.frames.len() == 0 {
            None
        } else {
            let top = &self.frames[self.frames.len() - 1];
            assert(top.valid());
            Some(top.next)
        }
    }

    /// Takes the metadata that was awaited, or `None` where it could not be
    /// read. A directory is to be listed next; anything else is a leaf.
    pub fn resolve(self, metadata: Option<Metadata>) -> (step: Step)
        ensures
            step.stage@ == stat_resolved(self@, facts_of(metadata)),
            step.skipped == (metadata is None && self@.len() > 0),
            step.stage matches Stage::Finished(Ok(item)) ==> acceptable(item@),
    {
        proof {
            use_type_invariant(&self);
        }
        let Crawler { frames } = self;
        let skipped = metadata.is_none() && frames.len() > 0;
        let stage = match metadata {
            None => deliver(frames, None, 0),
            Some(m) => {
                let Metadata { name, is_directory, len } = m;
                proof {
                    encode_utf8_valid_utf8(name@);
                }
                if is_directory {
                    Stage::List(Opening { frames, name: name.as_str().as_bytes_vec() })
                } else {
                    let leaf = Item::file(name.as_str(), len);
                    assert(leaf@.total_size() == len) by {
                        assert(Tree::sum_totals(leaf@.children) == 0);
                    }
                    deliver(frames, Some(leaf), len)
                }
            },
        };
        Step { stage, skipped }
    }
}

impl Opening {
    /// The number of directories that are being read, the one whose
    /// children are awaited not counted.
    pub fn depth(&self) -> (depth: usize)
        ensures
            depth == self.frames().len(),
    {
        self.frames.len()
    }

    /// Takes the number of children that was awaited, or `None` where the
    /// directory could not be listed. The children are visited in order; a
    /// directory without children is complete at once.
    pub fn resolve(self, count: Option<usize>) -> (step: Step)
        ensures
            step.stage@ == list_resolved(self.frames(), self.name(), count),
            step.skipped == (count is None && self.frames().len() > 0),
            step.stage matches Stage::Finished(Ok(item)) ==> acceptable(item@),
    {
        proof {
            use_type_invariant(&self);
        }
        let Opening { frames, name } = self;
        let skipped = count.is_none() && frames.len() > 0;
        let stage = match count {
            None => deliver(frames, None, 0),
            Some(n) => {
                if n == 0 {
                    proof {
                        assert(views(Seq::<Item>::empty()) =~= Seq::<Tree>::empty());
                        lemma_closed_acceptable(name@, Seq::<Tree>::empty());
                    }
                    deliver(frames, Some(Item::assemble(name, 0, true, Vec::new())), 0)
                } else {
                    let mut frames = frames;
                    let ghost rest = frames@;
                    let frame = Frame {
                        name,
                        count: n,
                        next: 0,
                        children: Vec::new(),
                        totals: Vec::new(),
                        total: 0,
                    };
                    assert(views(frame.children@) =~= Seq::<Tree>::empty());
                    frames.push(frame);
                    proof {
                        assert(frame_views(frames@) =~= frame_views(rest).push(frame@));
                        assert forall|i: int| 0 <= i < frames@.len() implies (#[trigger] frames@[i]).valid() by {
                            if i < rest.len() {
                                assert(frames@[i] == rest[i]);
                            }
                        }
                    }
                    Stage::Stat(Crawler { frames })
                }
            },
        };
        Step { stage, skipped }
    }
}

} // verus!
