//! The entries of a scanned tree and their sizes.

use vstd::prelude::*;
use vstd::utf8::{encode_utf8, encode_utf8_valid_utf8};
use crate::format::names_text;
use crate::order::{display_order, lemma_stable_sorted_entries, sort_by_total, stable_sorted};
use crate::tree::{
    lemma_sum_counts_prefix, lemma_sum_counts_step, lemma_sum_totals_bounds_each,
    lemma_sum_totals_prefix, lemma_sum_totals_step, Tree,
};

verus! {

/// A node of the scanned tree: a file, or a directory with its children.
///
/// The tree is built once, bottom-up, and never changed afterwards. A file
/// has no children; a directory keeps its directory flag even when it is
/// empty. A name is text, kept as its UTF-8 bytes.
#[derive(Debug, PartialEq, Eq)]
pub struct Item {
    name: Vec<u8>,
    own_size: u64,
    is_directory: bool,
    children: Vec<Item>,
}

impl View for Item {
    type V = Tree;

    closed spec fn view(&self) -> Tree
        decreases self, 0nat,
    {
        Tree {
            name: self.name@,
            own_size: self.own_size,
            is_directory: self.is_directory,
            children: Item::view_each(self.children@),
        }
    }
}

/// The models of a sequence of entries, in the same order.
pub open spec fn views(items: Seq<Item>) -> Seq<Tree> {
    Seq::new(items.len(), |i: int| items[i]@)
}

impl Item {
    /// The models of the entries of `items`, built from the back.
    closed spec fn view_each(items: Seq<Item>) -> Seq<Tree>
        decreases items, 1nat,
    {
        if items.len() == 0 {
            Seq::empty()
        } else {
            Item::view_each(items.drop_last()).push(items.last()@)
        }
    }

    proof fn lemma_view_each(items: Seq<Item>)
        ensures
            Item::view_each(items) == views(items),
        decreases items.len(),
    {
        if items.len() > 0 {
            Item::lemma_view_each(items.drop_last());
            assert(views(items.drop_last()).push(items.last()@) =~= views(items));
        } else {
            assert(views(items) =~= Seq::empty());
        }
    }

    /// A file of the given name and size.
    pub fn file(name: &str, size: u64) -> (item: Item)
        ensures
            item@ == (Tree {
                name: encode_utf8(name@),
                own_size: size,
                is_directory: false,
                children: Seq::empty(),
            }),
            item@.wf(),
            names_text(item@),
    {
        proof {
            encode_utf8_valid_utf8(name@);
        }
        Item { name: name.as_bytes_vec(), own_size: size, is_directory: false, children: Vec::new() }
    }

    /// A directory of the given children, put in display order: by
    /// non-increasing total size, children of equal total in the order given.
    /// A directory has no size of its own.
    pub fn directory(name: &str, children: Vec<Item>) -> (item: Item)
        requires
            forall|i: int|
                0 <= i < children@.len() ==> (#[trigger] children@[i])@.total_size() <= u64::MAX,
        ensures
            item@.name == encode_utf8(name@),
            item@.own_size == 0,
            item@.is_directory,
            item@.children == display_order(views(children@)),
            stable_sorted(views(children@), item@.children),
            item@.total_size() == Tree::sum_totals(views(children@)),
            (forall|i: int| 0 <= i < children@.len() ==> (#[trigger] children@[i])@.wf())
                ==> item@.wf(),
            (forall|i: int| 0 <= i < children@.len() ==> (#[trigger] children@[i])@.sorted())
                ==> item@.sorted(),
            (forall|i: int| 0 <= i < children@.len() ==> names_text((#[trigger] children@[i])@))
                ==> names_text(item@),
    {
        let ghost input = views(children@);
        let sorted = sort_by_total(children);
        let item = Item::assemble(name.as_bytes_vec(), 0, true, sorted);
        proof {
            encode_utf8_valid_utf8(name@);
            let output = item@.children;
            if forall|i: int| 0 <= i < children@.len() ==> names_text((#[trigger] children@[i])@) {
                assert forall|j: int| 0 <= j < output.len() implies names_text(
                    #[trigger] output[j],
                ) by {
                    lemma_stable_sorted_entries(input, output, j);
                    let i = choose|i: int| 0 <= i < input.len() && input[i] == output[j];
                    assert(names_text(children@[i]@));
                }
            }
            assert forall|j: int| 0 <= j < output.len() implies input.contains(#[trigger] output[j]) by {
                lemma_stable_sorted_entries(input, output, j);
            }
            if forall|i: int| 0 <= i < children@.len() ==> (#[trigger] children@[i])@.wf() {
                assert forall|j: int| 0 <= j < output.len() implies (#[trigger] output[j]).wf() by {
                    let i = choose|i: int| 0 <= i < input.len() && input[i] == output[j];
                    assert(children@[i]@.wf());
                }
            }
            if forall|i: int| 0 <= i < children@.len() ==> (#[trigger] children@[i])@.sorted() {
                assert forall|j: int| 0 <= j < output.len() implies (#[trigger] output[j]).sorted() by {
                    let i = choose|i: int| 0 <= i < input.len() && input[i] == output[j];
                    assert(children@[i]@.sorted());
                }
            }
        }
        item
    }

    /// An entry put together from its parts, the children in the order given.
    pub(crate) fn assemble(
        name: Vec<u8>,
        own_size: u64,
        is_directory: bool,
        children: Vec<Item>,
    ) -> (item: Item)
        ensures
            item@ == (Tree {
                name: name@,
                own_size,
                is_directory,
                children: views(children@),
            }),
    {
        let item = Item { name, own_size, is_directory, children };
        proof {
            Item::lemma_view_each(item.children@);
        }
        item
    }

    /// The final path component of the entry.
    pub fn name(&self) -> (name: &Vec<u8>)
        ensures
            name@ == self@.name,
    {
        &self.name
    }

    /// The bytes attributed to the entry itself, without its descendants.
    pub fn own_size(&self) -> (size: u64)
        ensures
            size == self@.own_size,
    {
        self.own_size
    }

    /// Whether the entry is a directory.
    pub fn is_directory(&self) -> (flag: bool)
        ensures
            flag == self@.is_directory,
    {
        self.is_directory
    }

    /// The children in display order.
    pub fn children(&self) -> (children: &Vec<Item>)
        ensures
            views(children@) == self@.children,
    {
        proof {
            Item::lemma_view_each(self.children@);
        }
        &self.children
    }

    /// The total size of the entry: its own size plus the total sizes of its
    /// children.
    pub fn total(&self) -> (total: u64)
        requires
            self@.total_size() <= u64::MAX,
        ensures
            total == self@.total_size(),
            total == self@.own_size + Tree::sum_totals(self@.children),
        decreases self,
    {
        let ghost kids = self@.children;
        proof {
            Item::lemma_view_each(self.children@);
        }
        let mut total: u64 = self.own_size;
        let mut i: usize = 0;
        while i < self.children.len()
            invariant
                0 <= i <= self.children.len(),
                kids == views(self.children@),
                self.own_size + Tree::sum_totals(kids) <= u64::MAX,
                total == self.own_size + Tree::sum_totals(kids.take(i as int)),
            decreases self.children.len() - i,
        {
            proof {
                lemma_sum_totals_step(kids, i as int);
                lemma_sum_totals_prefix(kids, i as int + 1);
                lemma_sum_totals_bounds_each(kids, i as int);
            }
            let child = self.children[i].total();
            total = total + child;
            i = i + 1;
        }
        assert(kids.take(i as int) =~= kids);
        total
    }

    /// The total size of the entry where it fits in 64 bits, and `None`
    /// where it does not.
    pub fn checked_total(&self) -> (total: Option<u64>)
        ensures
            match total {
                Some(t) => t == self@.total_size(),
                None => self@.total_size() > u64::MAX,
            },
        decreases self,
    {
        let ghost kids = self@.children;
        proof {
            Item::lemma_view_each(self.children@);
        }
        let mut total: u64 = self.own_size;
        let mut i: usize = 0;
        while i < self.children.len()
            invariant
                0 <= i <= self.children.len(),
                kids == views(self.children@),
                self@.total_size() == self.own_size + Tree::sum_totals(kids),
                total == self.own_size + Tree::sum_totals(kids.take(i as int)),
            decreases self.children.len() - i,
        {
            proof {
                lemma_sum_totals_step(kids, i as int);
                lemma_sum_totals_prefix(kids, i as int + 1);
                lemma_sum_totals_bounds_each(kids, i as int);
            }
            match self.children[i].checked_total() {
                None => {
                    assert(self@.total_size() >= kids[i as int].total_size());
                    return None;
                },
                Some(child) => {
                    match total.checked_add(child) {
                        None => {
                            assert(self@.total_size() >= total + child);
                            return None;
                        },
                        Some(sum) => {
                            total = sum;
                        },
                    }
                },
            }
            i = i + 1;
        }
        assert(kids.take(i as int) =~= kids);
        Some(total)
    }

    /// The number of entries in the tree, this one included, where it fits
    /// in 64 bits, and `None` where it does not.
    pub fn count(&self) -> (count: Option<u64>)
        ensures
            match count {
                Some(c) => c == self@.count(),
                None => self@.count() > u64::MAX,
            },
        decreases self,
    {
        let ghost kids = self@.children;
        proof {
            Item::lemma_view_each(self.children@);
        }
        let mut count: u64 = 1;
        let mut i: usize = 0;
        while i < self.children.len()
            invariant
                0 <= i <= self.children.len(),
                kids == views(self.children@),
                self@.count() == 1 + Tree::sum_counts(kids),
                count == 1 + Tree::sum_counts(kids.take(i as int)),
            decreases self.children.len() - i,
        {
            proof {
                lemma_sum_counts_step(kids, i as int);
                lemma_sum_counts_prefix(kids, i as int + 1);
            }
            match self.children[i].count() {
                None => {
                    return None;
                },
                Some(below) => {
                    match count.checked_add(below) {
                        None => {
                            return None;
                        },
                        Some(sum) => {
                            count = sum;
                        },
                    }
                },
            }
            i = i + 1;
        }
        assert(kids.take(i as int) =~= kids);
        Some(count)
    }
}

} // verus!
