//! The mathematical model of a scanned tree.
//!
//! Every contract of this crate is stated over [`Tree`], the view of an
//! [`crate::item::Item`]: a name, the bytes the entry occupies by itself,
//! the directory flag and the ordered children.

use vstd::prelude::*;

verus! {

/// One entry of a scanned tree, as a mathematical value.
pub struct Tree {
    /// Final path component, as raw bytes.
    pub name: Seq<u8>,
    /// Bytes attributed to the entry itself, without its descendants.
    pub own_size: u64,
    /// Whether the entry is a directory. The flag is stored, never inferred
    /// from the children: an empty directory is not a file.
    pub is_directory: bool,
    /// The children in display order.
    pub children: Seq<Tree>,
}

impl Tree {
    /// Own size plus the total sizes of all children, recursively.
    pub open spec fn total_size(self) -> nat
        decreases self, 0nat,
    {
        self.own_size as nat + Tree::sum_totals(self.children)
    }

    /// Sum of the total sizes of a sequence of entries.
    pub open spec fn sum_totals(s: Seq<Tree>) -> nat
        decreases s, 1nat,
    {
        if s.len() == 0 {
            0
        } else {
            Tree::sum_totals(s.drop_last()) + s.last().total_size()
        }
    }

    /// Number of entries in the tree, the root included.
    pub open spec fn count(self) -> nat
        decreases self, 0nat,
    {
        1 + Tree::sum_counts(self.children)
    }

    /// Number of entries in a sequence of trees.
    pub open spec fn sum_counts(s: Seq<Tree>) -> nat
        decreases s, 1nat,
    {
        if s.len() == 0 {
            0
        } else {
            Tree::sum_counts(s.drop_last()) + s.last().count()
        }
    }

    /// A file is a leaf: only directories have children, at every depth.
    pub open spec fn wf(self) -> bool
        decreases self,
    {
        &&& !self.is_directory ==> self.children.len() == 0
        &&& forall|i: int| 0 <= i < self.children.len() ==> (#[trigger] self.children[i]).wf()
    }

    /// The children of every directory of the tree stand in order of
    /// non-increasing total size.
    pub open spec fn sorted(self) -> bool
        decreases self,
    {
        &&& non_increasing(self.children)
        &&& forall|i: int| 0 <= i < self.children.len() ==> (#[trigger] self.children[i]).sorted()
    }
}

/// The entries stand in order of non-increasing total size.
pub open spec fn non_increasing(s: Seq<Tree>) -> bool {
    forall|i: int, j: int|
        0 <= i <= j < s.len() ==> (#[trigger] s[i]).total_size() >= (#[trigger] s[j]).total_size()
}

/// The sum over a prefix grows by the total of the next entry.
pub proof fn lemma_sum_totals_step(s: Seq<Tree>, i: int)
    requires
        0 <= i < s.len(),
    ensures
        Tree::sum_totals(s.take(i + 1)) == Tree::sum_totals(s.take(i)) + s[i].total_size(),
{
    assert(s.take(i + 1).drop_last() =~= s.take(i));
}

/// The sum over a prefix never exceeds the sum over the whole sequence.
pub proof fn lemma_sum_totals_prefix(s: Seq<Tree>, i: int)
    requires
        0 <= i <= s.len(),
    ensures
        Tree::sum_totals(s.take(i)) <= Tree::sum_totals(s),
    decreases s.len() - i,
{
    if i == s.len() {
        assert(s.take(i) =~= s);
    } else {
        lemma_sum_totals_step(s, i);
        lemma_sum_totals_prefix(s, i + 1);
    }
}

/// No entry of a sequence is larger than the sum over the sequence.
pub proof fn lemma_sum_totals_bounds_each(s: Seq<Tree>, i: int)
    requires
        0 <= i < s.len(),
    ensures
        s[i].total_size() <= Tree::sum_totals(s),
{
    lemma_sum_totals_step(s, i);
    lemma_sum_totals_prefix(s, i + 1);
}

/// The sum over a concatenation is the sum of the two sums.
pub proof fn lemma_sum_totals_concat(a: Seq<Tree>, b: Seq<Tree>)
    ensures
        Tree::sum_totals(a + b) == Tree::sum_totals(a) + Tree::sum_totals(b),
    decreases b.len(),
{
    if b.len() == 0 {
        assert(a + b =~= a);
    } else {
        assert((a + b).drop_last() =~= a + b.drop_last());
        lemma_sum_totals_concat(a, b.drop_last());
    }
}

/// Inserting an entry anywhere adds its total to the sum.
pub proof fn lemma_sum_totals_insert(s: Seq<Tree>, p: int, x: Tree)
    requires
        0 <= p <= s.len(),
    ensures
        Tree::sum_totals(s.insert(p, x)) == Tree::sum_totals(s) + x.total_size(),
{
    let head = s.take(p);
    let tail = s.skip(p);
    assert(s.insert(p, x) =~= head.push(x) + tail);
    assert(s =~= head + tail);
    assert(head.push(x).drop_last() =~= head);
    lemma_sum_totals_concat(head.push(x), tail);
    lemma_sum_totals_concat(head, tail);
}

/// Total size is monotonic: an entry weighs at least its own size and at
/// least as much as each of its children.
pub proof fn lemma_total_size_monotonic(t: Tree, i: int)
    requires
        0 <= i < t.children.len(),
    ensures
        t.total_size() >= t.own_size,
        t.total_size() >= t.children[i].total_size(),
{
    lemma_sum_totals_bounds_each(t.children, i);
}

/// The count over a prefix grows by the count of the next entry.
pub proof fn lemma_sum_counts_step(s: Seq<Tree>, i: int)
    requires
        0 <= i < s.len(),
    ensures
        Tree::sum_counts(s.take(i + 1)) == Tree::sum_counts(s.take(i)) + s[i].count(),
{
    assert(s.take(i + 1).drop_last() =~= s.take(i));
}

/// The count over a prefix never exceeds the count over the whole sequence.
pub proof fn lemma_sum_counts_prefix(s: Seq<Tree>, i: int)
    requires
        0 <= i <= s.len(),
    ensures
        Tree::sum_counts(s.take(i)) <= Tree::sum_counts(s),
    decreases s.len() - i,
{
    if i == s.len() {
        assert(s.take(i) =~= s);
    } else {
        lemma_sum_counts_step(s, i);
        lemma_sum_counts_prefix(s, i + 1);
    }
}

} // verus!
