//! What a crawl makes of what it finds.
//!
//! `Found` stands for a directory subtree as the crawl's caller finds it on
//! disk, `crawled` for the tree that belongs to it, and `run` for the crawl
//! that is handed, answer by answer, what is found. The crawl ends with the
//! tree that belongs to what was found.

use vstd::prelude::*;
use crate::crawl::{
    closed, delivered, list_resolved, stat_resolved, CrawlError, Facts, Open, Progress,
};
use crate::order::{lemma_display_order, lemma_stable_sorted_entries};
use crate::tree::{lemma_sum_totals_prefix, Tree};

verus! {

/// What is found at a path.
pub enum Found {
    /// Nothing that can be read: the metadata is out of reach.
    Unreadable,
    /// Something that is no directory, of the given length.
    File { name: Seq<u8>, len: u64 },
    /// A directory whose children cannot be listed.
    Locked { name: Seq<u8>, len: u64 },
    /// A directory with what is found at each of its children, in the order
    /// in which they are listed. The length is what its metadata says; it
    /// plays no part in the tree.
    Directory { name: Seq<u8>, len: u64, entries: Seq<Found> },
}

/// The tree that belongs to what is found: a leaf for a file, a directory
/// without a size of its own for a directory, its children in display
/// order; nothing for what cannot be read.
pub open spec fn crawled(found: Found) -> Option<Tree>
    decreases found, 0nat,
{
    match found {
        Found::Unreadable => None,
        Found::File { name, len } => Some(
            Tree { name, own_size: len, is_directory: false, children: Seq::empty() },
        ),
        Found::Locked { name, len } => None,
        Found::Directory { name, len, entries } => Some(
            closed(name, kept(entries, entries.len())),
        ),
    }
}

/// The trees that belong to the first `n` of `entries`, in their order,
/// without those that cannot be read.
pub open spec fn kept(entries: Seq<Found>, n: nat) -> Seq<Tree>
    decreases entries, n,
{
    if n == 0 || n > entries.len() {
        Seq::empty()
    } else {
        match crawled(entries[n - 1]) {
            Some(t) => kept(entries, (n - 1) as nat).push(t),
            None => kept(entries, (n - 1) as nat),
        }
    }
}

/// What the metadata says of what is found.
pub open spec fn facts(found: Found) -> Option<Facts> {
    match found {
        Found::Unreadable => None,
        Found::File { name, len } => Some(Facts { name, is_directory: false, len }),
        Found::Locked { name, len } => Some(Facts { name, is_directory: true, len }),
        Found::Directory { name, len, entries } => Some(Facts { name, is_directory: true, len }),
    }
}

/// The number of children that a listing of what is found gives.
pub open spec fn listing(found: Found) -> Option<usize> {
    match found {
        Found::Directory { name, len, entries } => Some(entries.len() as usize),
        _ => None,
    }
}

/// The crawl after it has been handed, answer by answer, all there is to
/// know of `found`, whose metadata it awaits with the directories `frames`
/// being read.
pub open spec fn run(frames: Seq<Open>, found: Found) -> Progress
    decreases found, 0nat,
{
    match stat_resolved(frames, facts(found)) {
        Progress::List(outer, name) => match list_resolved(outer, name, listing(found)) {
            Progress::Stat(inner) => match found {
                Found::Directory { name, len, entries } => run_entries(inner, entries, 0),
                _ => Progress::Stat(inner),
            },
            other => other,
        },
        other => other,
    }
}

/// The crawl after it has been handed all there is to know of `entries`
/// from position `i` on, one after the other, for as long as it asks for
/// the next.
pub open spec fn run_entries(frames: Seq<Open>, entries: Seq<Found>, i: nat) -> Progress
    decreases entries, entries.len() - i,
{
    if i >= entries.len() {
        Progress::Stat(frames)
    } else {
        match run(frames, entries[i as int]) {
            Progress::Stat(next) => run_entries(next, entries, i + 1),
            other => other,
        }
    }
}

/// Every directory has no more children than can be counted, and what the
/// crawl makes of it is no larger than fits in 64 bits.
pub open spec fn fits(found: Found) -> bool
    decreases found,
{
    &&& crawled(found) matches Some(t) ==> t.total_size() <= u64::MAX
    &&& found matches Found::Directory { name, len, entries } ==> {
        &&& entries.len() <= usize::MAX
        &&& forall|i: int| 0 <= i < entries.len() ==> fits(#[trigger] entries[i])
    }
}

/// The trees kept of the first `i` entries are the first of the trees kept
/// of the first `n`.
proof fn lemma_kept_prefix(entries: Seq<Found>, i: nat, n: nat)
    requires
        i <= n <= entries.len(),
    ensures
        kept(entries, i).len() <= kept(entries, n).len(),
        kept(entries, i) == kept(entries, n).take(kept(entries, i).len() as int),
    decreases n - i,
{
    if i == n {
        assert(kept(entries, n).take(kept(entries, n).len() as int) =~= kept(entries, n));
    } else {
        lemma_kept_prefix(entries, i, (n - 1) as nat);
        let shorter = kept(entries, (n - 1) as nat);
        let k = kept(entries, i).len() as int;
        assert(kept(entries, n).take(k) =~= shorter.take(k));
    }
}

/// Handing in a result never leads to a listing.
proof fn lemma_delivered_asks_for_no_listing(frames: Seq<Open>, result: Option<Tree>)
    ensures
        !(delivered(frames, result) is List),
    decreases frames.len(),
{
    if frames.len() > 0 {
        let top = frames.last();
        let children = match result {
            Some(t) => top.children.push(t),
            None => top.children,
        };
        lemma_delivered_asks_for_no_listing(
            frames.drop_last(),
            Some(closed(top.name, children)),
        );
    }
}

/// The crawl of what is found, handed to the directories being read, is
/// what the tree that belongs to it would be, handed to them.
proof fn lemma_run(frames: Seq<Open>, found: Found)
    requires
        fits(found),
    ensures
        run(frames, found) == delivered(frames, crawled(found)),
    decreases found, 0nat,
{
    match found {
        Found::Directory { name, len, entries } => {
            let n = entries.len();
            assert(crawled(found) == Some(closed(name, kept(entries, n))));
            assert(stat_resolved(frames, facts(found)) == Progress::List(frames, name));
            if n > 0 {
                let first = Open { name, count: n, next: 0, children: kept(entries, 0) };
                assert(list_resolved(frames, name, listing(found)) == Progress::Stat(
                    frames.push(first),
                ));
                assert(run(frames, found) == run_entries(frames.push(first), entries, 0));
                lemma_display_order(kept(entries, n));
                lemma_run_entries(frames, name, entries, 0);
            } else {
                let done = delivered(frames, Some(closed(name, Seq::empty())));
                assert(list_resolved(frames, name, listing(found)) == done);
                match done {
                    Progress::Stat(outer) => {
                        assert(run_entries(outer, entries, 0) == Progress::Stat(outer));
                    },
                    _ => {},
                }
                assert(run(frames, found) == done);
            }
        },
        _ => {
            lemma_delivered_asks_for_no_listing(frames, crawled(found));
        },
    }
}

/// The crawl of the children of a directory from position `i` on, with the
/// trees of the children before in hand, closes the directory over the
/// trees of all its children.
proof fn lemma_run_entries(frames: Seq<Open>, name: Seq<u8>, entries: Seq<Found>, i: nat)
    requires
        i < entries.len() <= usize::MAX,
        forall|j: int| 0 <= j < entries.len() ==> fits(#[trigger] entries[j]),
        Tree::sum_totals(kept(entries, entries.len())) <= u64::MAX,
    ensures
        run_entries(
            frames.push(
                Open { name, count: entries.len(), next: i, children: kept(entries, i) },
            ),
            entries,
            i,
        ) == delivered(frames, Some(closed(name, kept(entries, entries.len())))),
    decreases entries, entries.len() - i,
{
    let n = entries.len();
    let top = Open { name, count: n, next: i, children: kept(entries, i) };
    let stack = frames.push(top);
    let goal = delivered(frames, Some(closed(name, kept(entries, n))));
    lemma_run(stack, entries[i as int]);
    let grown = kept(entries, i + 1);
    assert(grown == match crawled(entries[i as int]) {
        Some(t) => kept(entries, i).push(t),
        None => kept(entries, i),
    });
    assert(Tree::sum_totals(grown) <= u64::MAX) by {
        lemma_kept_prefix(entries, i + 1, n);
        lemma_sum_totals_prefix(kept(entries, n), grown.len() as int);
    }
    assert(stack.drop_last() =~= frames);
    assert(stack.last() == top);
    let after = run(stack, entries[i as int]);
    assert(after == delivered(stack, crawled(entries[i as int])));
    if i + 1 < n {
        let next = Open { name, count: n, next: i + 1, children: grown };
        assert(after == Progress::Stat(frames.push(next)));
        lemma_run_entries(frames, name, entries, i + 1);
        assert(run_entries(stack, entries, i) == run_entries(frames.push(next), entries, i + 1));
    } else {
        assert(after == goal);
        match after {
            Progress::Stat(outer) => {
                assert(run_entries(outer, entries, i + 1) == Progress::Stat(outer));
            },
            _ => {},
        }
        assert(run_entries(stack, entries, i) == after);
    }
}

/// Every tree among those kept belongs to one of the entries.
proof fn lemma_kept_from_entries(entries: Seq<Found>, n: nat, j: int)
    requires
        n <= entries.len(),
        0 <= j < kept(entries, n).len(),
    ensures
        exists|i: int| 0 <= i < n && crawled(#[trigger] entries[i]) == Some(kept(entries, n)[j]),
    decreases n,
{
    let shorter = kept(entries, (n - 1) as nat);
    if j < shorter.len() {
        lemma_kept_from_entries(entries, (n - 1) as nat, j);
        let i = choose|i: int| 0 <= i < n - 1 && crawled(#[trigger] entries[i]) == Some(shorter[j]);
        assert(crawled(entries[i]) == Some(kept(entries, n)[j]));
    } else {
        assert(crawled(entries[n - 1]) == Some(kept(entries, n)[j]));
    }
}

/// In a tree that belongs to what is found, files are leaves, and the
/// children of every directory stand by non-increasing total size.
pub proof fn lemma_crawled_in_order(found: Found)
    ensures
        crawled(found) matches Some(t) ==> t.wf() && t.sorted(),
    decreases found,
{
    match found {
        Found::Directory { name, len, entries } => {
            let all = kept(entries, entries.len());
            let t = closed(name, all);
            lemma_display_order(all);
            assert forall|j: int| 0 <= j < t.children.len() implies (#[trigger] t.children[j]).wf()
                && t.children[j].sorted() by {
                lemma_stable_sorted_entries(all, t.children, j);
                let k = choose|k: int| 0 <= k < all.len() && all[k] == t.children[j];
                lemma_kept_from_entries(entries, entries.len(), k);
                let i = choose|i: int|
                    0 <= i < entries.len() && crawled(#[trigger] entries[i]) == Some(all[k]);
                lemma_crawled_in_order(entries[i]);
            }
        },
        _ => {},
    }
}

/// A crawl ends with the tree that belongs to what is found: the root that
/// cannot be read ends it without a tree; children that cannot be read are
/// left out; directories have no size of their own and hold their children
/// in display order.
pub proof fn lemma_crawl(found: Found)
    requires
        fits(found),
    ensures
        run(Seq::empty(), found) == Progress::Finished(
            match crawled(found) {
                Some(t) => Ok(t),
                None => Err(CrawlError::RootUnreadable),
            },
        ),
{
    lemma_run(Seq::empty(), found);
}

} // verus!
