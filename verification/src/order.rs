//! The display order of a directory's children: largest total first, entries
//! of equal total in the order in which they were found.

use vstd::prelude::*;
use vstd::seq_lib::{group_to_multiset_ensures, lemma_multiset_commutative, to_multiset_build};
use crate::item::{views, Item};
use crate::tree::{lemma_sum_totals_concat, lemma_sum_totals_insert, non_increasing, Tree};

verus! {

/// The test "has a total size of exactly `v`".
pub open spec fn with_total(v: nat) -> spec_fn(Tree) -> bool {
    |t: Tree| t.total_size() == v
}

/// `output` is `input` in display order:
/// - it holds the same entries, each as often as `input` does;
/// - totals never increase along it;
/// - the entries of any one total stand in the order they have in `input`.
pub open spec fn stable_sorted(input: Seq<Tree>, output: Seq<Tree>) -> bool {
    &&& output.to_multiset() == input.to_multiset()
    &&& non_increasing(output)
    &&& forall|v: nat| #[trigger] output.filter(with_total(v)) == input.filter(with_total(v))
}

/// Where no entry passes the test, the filter leaves nothing.
proof fn lemma_filter_none(s: Seq<Tree>, v: nat)
    requires
        forall|i: int| 0 <= i < s.len() ==> (#[trigger] s[i]).total_size() != v,
    ensures
        s.filter(with_total(v)) == Seq::<Tree>::empty(),
{
    let f = s.filter(with_total(v));
    if f.len() > 0 {
        s.lemma_filter_pred(with_total(v), 0);
        assert(f.contains(f[0]));
        s.lemma_filter_contains_rev(with_total(v), f[0]);
        let i = choose|i: int| 0 <= i < s.len() && s[i] == f[0];
        assert(s[i].total_size() != v);
    }
    assert(f =~= Seq::empty());
}

/// Putting a new first entry `x` of the input in front of the entries of the
/// output that are no larger keeps the output in display order.
proof fn lemma_insert_keeps_order(input: Seq<Tree>, output: Seq<Tree>, x: Tree, p: int)
    requires
        stable_sorted(input, output),
        0 <= p <= output.len(),
        forall|i: int| 0 <= i < p ==> (#[trigger] output[i]).total_size() > x.total_size(),
        forall|i: int| p <= i < output.len() ==> (#[trigger] output[i]).total_size() <= x.total_size(),
    ensures
        stable_sorted(seq![x] + input, output.insert(p, x)),
{
    broadcast use group_to_multiset_ensures;

    let input2 = seq![x] + input;
    let output2 = output.insert(p, x);
    let head = output.take(p);
    let tail = output.skip(p);
    assert(output2 =~= head.push(x) + tail);
    assert(output =~= head + tail);

    assert(output2.to_multiset() == input2.to_multiset()) by {
        assert(output2.remove(p) =~= output);
        assert(output2[p] == x);
        assert(input2.remove(0) =~= input);
        assert(input2[0] == x);
        assert(output2.to_multiset().remove(x) == input2.to_multiset().remove(x));
        assert(output2.contains(x));
        assert(input2.contains(x));
        assert(output2.to_multiset() =~= output2.to_multiset().remove(x).insert(x));
        assert(input2.to_multiset() =~= input2.to_multiset().remove(x).insert(x));
    }

    assert(non_increasing(output2)) by {
        assert forall|i: int, j: int| 0 <= i <= j < output2.len() implies (#[trigger] output2[i]).total_size()
            >= (#[trigger] output2[j]).total_size() by {
            let a = if i < p { output[i] } else if i == p { x } else { output[i - 1] };
            let b = if j < p { output[j] } else if j == p { x } else { output[j - 1] };
            assert(output2[i] == a);
            assert(output2[j] == b);
        }
    }

    assert forall|v: nat| #[trigger]
        output2.filter(with_total(v)) == input2.filter(with_total(v)) by {
        let pred = with_total(v);
        assert(output.filter(pred) == input.filter(pred));
        Seq::filter_distributes_over_add(head.push(x), tail, pred);
        Seq::filter_distributes_over_add(head, tail, pred);
        head.lemma_filter_push(x, pred);
        input.lemma_filter_prepend(x, pred);
        if pred(x) {
            assert forall|i: int| 0 <= i < head.len() implies (#[trigger] head[i]).total_size() != v by {
                assert(head[i] == output[i]);
            }
            lemma_filter_none(head, v);
            assert(output2.filter(pred) =~= seq![x] + output.filter(pred));
        } else {
            assert(Seq::<Tree>::empty() + input.filter(pred) =~= input.filter(pred));
        }
    }
}

/// Every entry of a sequence in display order is an entry of the input.
pub proof fn lemma_stable_sorted_entries(input: Seq<Tree>, output: Seq<Tree>, j: int)
    requires
        stable_sorted(input, output),
        0 <= j < output.len(),
    ensures
        input.contains(output[j]),
        output.len() == input.len(),
{
    input.to_multiset_ensures();
    output.to_multiset_ensures();
    assert(output.contains(output[j]));
    assert(output.to_multiset().count(output[j]) > 0);
}

/// The first position of `sorted`, from `from` on, that holds an entry no
/// larger than `total`, or the length of `sorted` where there is none.
pub open spec fn place_index(sorted: Seq<Tree>, total: nat, from: int) -> int
    decreases sorted.len() - from,
{
    if from < 0 || from >= sorted.len() {
        sorted.len() as int
    } else if sorted[from].total_size() <= total {
        from
    } else {
        place_index(sorted, total, from + 1)
    }
}

/// The entries in display order: each entry goes in front of the first of
/// the entries after it, already in order, that is no larger.
pub open spec fn display_order(s: Seq<Tree>) -> Seq<Tree>
    decreases s.len(),
{
    if s.len() == 0 {
        s
    } else {
        let rest = display_order(s.drop_first());
        rest.insert(place_index(rest, s.first().total_size(), 0), s.first())
    }
}

/// Where an entry is placed, the entries before are larger and the entries
/// from there on are no larger than it, as far as they are in order.
proof fn lemma_place_index(sorted: Seq<Tree>, total: nat, from: int)
    requires
        0 <= from <= sorted.len(),
        non_increasing(sorted),
    ensures
        from <= place_index(sorted, total, from) <= sorted.len(),
        forall|i: int|
            from <= i < place_index(sorted, total, from) ==> (#[trigger] sorted[i]).total_size()
                > total,
        forall|i: int|
            place_index(sorted, total, from) <= i < sorted.len() ==> (
            #[trigger] sorted[i]).total_size() <= total,
    decreases sorted.len() - from,
{
    if from < sorted.len() {
        if sorted[from].total_size() <= total {
            assert forall|i: int| from <= i < sorted.len() implies (#[trigger] sorted[i]).total_size()
                <= total by {
                assert(sorted[from].total_size() >= sorted[i].total_size());
            }
        } else {
            lemma_place_index(sorted, total, from + 1);
        }
    }
}

/// The display order is what its name says: the same entries, by
/// non-increasing total size, entries of equal total in the order they had.
/// Their sizes add up to the same sum.
pub proof fn lemma_display_order(s: Seq<Tree>)
    ensures
        stable_sorted(s, display_order(s)),
        display_order(s).len() == s.len(),
        Tree::sum_totals(display_order(s)) == Tree::sum_totals(s),
    decreases s.len(),
{
    broadcast use group_to_multiset_ensures;

    if s.len() == 0 {
        assert(non_increasing(s));
    } else {
        let x = s.first();
        let tail = s.drop_first();
        let rest = display_order(tail);
        lemma_display_order(tail);
        lemma_place_index(rest, x.total_size(), 0);
        let p = place_index(rest, x.total_size(), 0);
        lemma_insert_keeps_order(tail, rest, x, p);
        assert(seq![x] + tail =~= s);
        lemma_sum_totals_insert(rest, p, x);
        lemma_sum_totals_concat(seq![x], tail);
        assert(Tree::sum_totals(seq![x]) == x.total_size()) by {
            assert(seq![x].drop_last() =~= Seq::<Tree>::empty());
            assert(Tree::sum_totals(seq![x].drop_last()) == 0);
        }
    }
}

/// Two sequences of equal length, both by non-increasing total size, that
/// agree on the entries of every one total, in their order, are the same.
proof fn lemma_same_by_classes(a: Seq<Tree>, b: Seq<Tree>)
    requires
        a.len() == b.len(),
        non_increasing(a),
        non_increasing(b),
        forall|v: nat| #[trigger] a.filter(with_total(v)) == b.filter(with_total(v)),
    ensures
        a == b,
    decreases a.len(),
{
    if a.len() == 0 {
        assert(a =~= b);
    } else {
        let x = a.last();
        let y = b.last();
        let a0 = a.drop_last();
        let b0 = b.drop_last();
        assert(a =~= a0.push(x));
        assert(b =~= b0.push(y));
        assert forall|v: nat| a.filter(with_total(v)) == (if with_total(v)(x) {
            a0.filter(with_total(v)).push(x)
        } else {
            a0.filter(with_total(v))
        }) by {
            a0.lemma_filter_push(x, with_total(v));
        }
        assert forall|v: nat| b.filter(with_total(v)) == (if with_total(v)(y) {
            b0.filter(with_total(v)).push(y)
        } else {
            b0.filter(with_total(v))
        }) by {
            b0.lemma_filter_push(y, with_total(v));
        }
        let vx = x.total_size();
        let vy = y.total_size();
        // The last entries are the smallest, and each total occurs in both.
        assert(vy <= vx) by {
            let f = a.filter(with_total(vx));
            assert(f.last() == x);
            assert(f == b.filter(with_total(vx)));
            assert(f.contains(f.last()));
            b.lemma_filter_contains_rev(with_total(vx), x);
            let i = choose|i: int| 0 <= i < b.len() && b[i] == x;
            assert(b[i].total_size() >= b[b.len() - 1].total_size());
        }
        assert(vx <= vy) by {
            let f = b.filter(with_total(vy));
            assert(f.last() == y);
            assert(f == a.filter(with_total(vy)));
            assert(f.contains(f.last()));
            a.lemma_filter_contains_rev(with_total(vy), y);
            let i = choose|i: int| 0 <= i < a.len() && a[i] == y;
            assert(a[i].total_size() >= a[a.len() - 1].total_size());
        }
        assert(x == y) by {
            assert(a.filter(with_total(vx)).last() == x);
            assert(b.filter(with_total(vx)).last() == y);
        }
        assert forall|v: nat| #[trigger] a0.filter(with_total(v)) == b0.filter(with_total(v)) by {
            let fa = a.filter(with_total(v));
            let fb = b.filter(with_total(v));
            assert(fa == fb);
            if with_total(v)(x) {
                assert(fa.drop_last() =~= a0.filter(with_total(v)));
                assert(fb.drop_last() =~= b0.filter(with_total(v)));
            }
        }
        assert(non_increasing(a0)) by {
            assert forall|i: int, j: int| 0 <= i <= j < a0.len() implies (#[trigger] a0[i]).total_size()
                >= (#[trigger] a0[j]).total_size() by {
                assert(a0[i] == a[i] && a0[j] == a[j]);
            }
        }
        assert(non_increasing(b0)) by {
            assert forall|i: int, j: int| 0 <= i <= j < b0.len() implies (#[trigger] b0[i]).total_size()
                >= (#[trigger] b0[j]).total_size() by {
                assert(b0[i] == b[i] && b0[j] == b[j]);
            }
        }
        lemma_same_by_classes(a0, b0);
    }
}

/// There is one display order: whatever holds the same entries by
/// non-increasing total size, entries of equal total in the order they had,
/// is the display order.
pub proof fn lemma_display_order_only(input: Seq<Tree>, output: Seq<Tree>)
    requires
        stable_sorted(input, output),
    ensures
        output == display_order(input),
{
    lemma_display_order(input);
    input.to_multiset_ensures();
    output.to_multiset_ensures();
    let other = display_order(input);
    assert forall|v: nat| #[trigger] output.filter(with_total(v)) == other.filter(with_total(v)) by {
        assert(output.filter(with_total(v)) == input.filter(with_total(v)));
        assert(other.filter(with_total(v)) == input.filter(with_total(v)));
    }
    lemma_same_by_classes(output, other);
}

/// An entry with its total size at hand.
struct Keyed {
    key: u64,
    item: Item,
}

/// The models of the entries of `s`, in the same order.
spec fn trees(s: Seq<Keyed>) -> Seq<Tree> {
    Seq::new(s.len(), |i: int| s[i].item@)
}

/// Every key is the total size of its entry.
spec fn keyed(s: Seq<Keyed>) -> bool {
    forall|i: int| 0 <= i < s.len() ==> (#[trigger] s[i]).key == s[i].item@.total_size()
}

/// `a` is `b` read from the back.
spec fn mirrored<T>(a: Seq<T>, b: Seq<T>) -> bool {
    a.len() == b.len() && forall|i: int| 0 <= i < a.len() ==> #[trigger] a[i] == b[b.len() - 1 - i]
}

/// The elements of `v` from the back to the front.
fn reversed<T>(v: Vec<T>) -> (r: Vec<T>)
    ensures
        mirrored(r@, v@),
{
    let mut rest = v;
    let mut r: Vec<T> = Vec::new();
    while rest.len() > 0
        invariant
            rest@.len() + r@.len() == v@.len(),
            rest@ == v@.take(rest@.len() as int),
            forall|i: int| 0 <= i < r@.len() ==> #[trigger] r@[i] == v@[v@.len() - 1 - i],
        decreases rest@.len(),
    {
        let ghost before = rest@;
        let x = rest.pop().unwrap();
        assert(x == v@[before.len() - 1]);
        r.push(x);
        assert(rest@ =~= v@.take(rest@.len() as int));
    }
    r
}

/// `out` is what a merge of `l` and `r` has put out after it has taken the
/// first `i` of `l` and the first `j` of `r`.
spec fn merging(l: Seq<Tree>, r: Seq<Tree>, i: int, j: int, out: Seq<Tree>) -> bool {
    &&& 0 <= i <= l.len()
    &&& 0 <= j <= r.len()
    &&& out.to_multiset() == l.take(i).to_multiset().add(r.take(j).to_multiset())
    &&& non_increasing(out)
    &&& forall|v: nat| #[trigger]
        out.filter(with_total(v)) == l.take(i).filter(with_total(v)) + r.take(j).filter(
            with_total(v),
        )
    &&& forall|k: int|
        0 <= k < out.len() && i < l.len() ==> (#[trigger] out[k]).total_size() >= l[i].total_size()
    &&& forall|k: int|
        0 <= k < out.len() && j < r.len() ==> (#[trigger] out[k]).total_size() >= r[j].total_size()
    &&& forall|k: int| 0 <= k < j && i < l.len() ==> (#[trigger] r[k]).total_size() > l[i].total_size()
}

/// A merge may take the next of `l` where it is no smaller than the next of
/// `r`.
proof fn lemma_merge_takes_left(l: Seq<Tree>, r: Seq<Tree>, i: int, j: int, out: Seq<Tree>)
    requires
        merging(l, r, i, j, out),
        non_increasing(l),
        non_increasing(r),
        i < l.len(),
        j < r.len() ==> l[i].total_size() >= r[j].total_size(),
    ensures
        merging(l, r, i + 1, j, out.push(l[i])),
{
    let x = l[i];
    let out2 = out.push(x);
    assert(l.take(i + 1) =~= l.take(i).push(x));
    assert(out2.to_multiset() == l.take(i + 1).to_multiset().add(r.take(j).to_multiset())) by {
        to_multiset_build(out, x);
        to_multiset_build(l.take(i), x);
        assert(out2.to_multiset() =~= l.take(i + 1).to_multiset().add(r.take(j).to_multiset()));
    }
    assert(non_increasing(out2)) by {
        assert forall|a: int, b: int| 0 <= a <= b < out2.len() implies (#[trigger] out2[a]).total_size()
            >= (#[trigger] out2[b]).total_size() by {
            if b < out.len() {
                assert(out2[a] == out[a] && out2[b] == out[b]);
            } else if a < out.len() {
                assert(out2[a] == out[a]);
            }
        }
    }
    assert forall|v: nat| #[trigger]
        out2.filter(with_total(v)) == l.take(i + 1).filter(with_total(v)) + r.take(j).filter(
            with_total(v),
        ) by {
        let pred = with_total(v);
        let lf = l.take(i).filter(pred);
        let rf = r.take(j).filter(pred);
        assert(out.filter(pred) == lf + rf);
        out.lemma_filter_push(x, pred);
        l.take(i).lemma_filter_push(x, pred);
        if pred(x) {
            assert forall|k: int| 0 <= k < r.take(j).len() implies (#[trigger] r.take(j)[k]).total_size()
                != v by {
                assert(r.take(j)[k] == r[k]);
            }
            lemma_filter_none(r.take(j), v);
            assert((lf + rf).push(x) =~= lf.push(x) + rf);
        }
    }
    assert forall|k: int| 0 <= k < out2.len() && i + 1 < l.len() implies (#[trigger] out2[k]).total_size()
        >= l[i + 1].total_size() by {
        assert(l[i].total_size() >= l[i + 1].total_size());
        if k < out.len() {
            assert(out2[k] == out[k]);
        }
    }
    assert forall|k: int| 0 <= k < out2.len() && j < r.len() implies (#[trigger] out2[k]).total_size()
        >= r[j].total_size() by {
        if k < out.len() {
            assert(out2[k] == out[k]);
        }
    }
    assert forall|k: int| 0 <= k < j && i + 1 < l.len() implies (#[trigger] r[k]).total_size() > l[i
        + 1].total_size() by {
        assert(l[i].total_size() >= l[i + 1].total_size());
    }
}

/// A merge may take the next of `r` where it is larger than the next of
/// `l`.
proof fn lemma_merge_takes_right(l: Seq<Tree>, r: Seq<Tree>, i: int, j: int, out: Seq<Tree>)
    requires
        merging(l, r, i, j, out),
        non_increasing(l),
        non_increasing(r),
        j < r.len(),
        i < l.len() ==> r[j].total_size() > l[i].total_size(),
    ensures
        merging(l, r, i, j + 1, out.push(r[j])),
{
    let x = r[j];
    let out2 = out.push(x);
    assert(r.take(j + 1) =~= r.take(j).push(x));
    assert(out2.to_multiset() == l.take(i).to_multiset().add(r.take(j + 1).to_multiset())) by {
        to_multiset_build(out, x);
        to_multiset_build(r.take(j), x);
        assert(out2.to_multiset() =~= l.take(i).to_multiset().add(r.take(j + 1).to_multiset()));
    }
    assert(non_increasing(out2)) by {
        assert forall|a: int, b: int| 0 <= a <= b < out2.len() implies (#[trigger] out2[a]).total_size()
            >= (#[trigger] out2[b]).total_size() by {
            if b < out.len() {
                assert(out2[a] == out[a] && out2[b] == out[b]);
            } else if a < out.len() {
                assert(out2[a] == out[a]);
            }
        }
    }
    assert forall|v: nat| #[trigger]
        out2.filter(with_total(v)) == l.take(i).filter(with_total(v)) + r.take(j + 1).filter(
            with_total(v),
        ) by {
        let pred = with_total(v);
        let lf = l.take(i).filter(pred);
        let rf = r.take(j).filter(pred);
        assert(out.filter(pred) == lf + rf);
        out.lemma_filter_push(x, pred);
        r.take(j).lemma_filter_push(x, pred);
        if pred(x) {
            assert((lf + rf).push(x) =~= lf + rf.push(x));
        }
    }
    assert forall|k: int| 0 <= k < out2.len() && i < l.len() implies (#[trigger] out2[k]).total_size()
        >= l[i].total_size() by {
        if k < out.len() {
            assert(out2[k] == out[k]);
        }
    }
    assert forall|k: int| 0 <= k < out2.len() && j + 1 < r.len() implies (#[trigger] out2[k]).total_size()
        >= r[j + 1].total_size() by {
        assert(r[j].total_size() >= r[j + 1].total_size());
        if k < out.len() {
            assert(out2[k] == out[k]);
        }
    }
}

/// Two lists in display order, merged into one: the larger entry first, of
/// two of equal total the one of `left`.
fn merge(left: Vec<Keyed>, right: Vec<Keyed>) -> (out: Vec<Keyed>)
    requires
        keyed(left@),
        keyed(right@),
        non_increasing(trees(left@)),
        non_increasing(trees(right@)),
    ensures
        keyed(out@),
        merging(
            trees(left@),
            trees(right@),
            left@.len() as int,
            right@.len() as int,
            trees(out@),
        ),
{
    broadcast use group_to_multiset_ensures;

    let ghost l = trees(left@);
    let ghost r = trees(right@);
    let mut a = reversed(left);
    let mut b = reversed(right);
    let mut out: Vec<Keyed> = Vec::new();
    proof {
        assert(trees(out@) =~= Seq::<Tree>::empty());
        assert(l.take(0) =~= Seq::<Tree>::empty());
        assert(r.take(0) =~= Seq::<Tree>::empty());
        assert(Seq::<Tree>::empty().to_multiset().add(Seq::<Tree>::empty().to_multiset())
            =~= Seq::<Tree>::empty().to_multiset());
        assert forall|v: nat| #[trigger]
            Seq::<Tree>::empty().filter(with_total(v)) == Seq::<Tree>::empty().filter(
                with_total(v),
            ) + Seq::<Tree>::empty().filter(with_total(v)) by {
            lemma_filter_none(Seq::<Tree>::empty(), v);
            assert(Seq::<Tree>::empty() + Seq::<Tree>::empty() =~= Seq::<Tree>::empty());
        }
    }
    while a.len() > 0 || b.len() > 0
        invariant
            l == trees(left@),
            r == trees(right@),
            keyed(left@),
            keyed(right@),
            non_increasing(l),
            non_increasing(r),
            a@.len() <= left@.len(),
            b@.len() <= right@.len(),
            forall|k: int| 0 <= k < a@.len() ==> #[trigger] a@[k] == left@[left@.len() - 1 - k],
            forall|k: int| 0 <= k < b@.len() ==> #[trigger] b@[k] == right@[right@.len() - 1 - k],
            keyed(out@),
            merging(l, r, left@.len() - a@.len(), right@.len() - b@.len(), trees(out@)),
        decreases a@.len() + b@.len(),
    {
        let ghost i = left@.len() - a@.len();
        let ghost j = right@.len() - b@.len();
        let ghost before = trees(out@);
        let from_left = if a.len() == 0 {
            false
        } else if b.len() == 0 {
            true
        } else {
            a[a.len() - 1].key >= b[b.len() - 1].key
        };
        proof {
            if a@.len() > 0 {
                assert(a@[a@.len() - 1] == left@[i]);
                assert(l[i] == left@[i].item@);
            }
            if b@.len() > 0 {
                assert(b@[b@.len() - 1] == right@[j]);
                assert(r[j] == right@[j].item@);
            }
        }
        if from_left {
            proof {
                lemma_merge_takes_left(l, r, i, j, before);
            }
            let x = a.pop().unwrap();
            out.push(x);
            assert(trees(out@) =~= before.push(l[i]));
        } else {
            proof {
                lemma_merge_takes_right(l, r, i, j, before);
            }
            let x = b.pop().unwrap();
            out.push(x);
            assert(trees(out@) =~= before.push(r[j]));
        }
    }
    out
}

/// A list is in display order once its two halves are and are merged.
proof fn lemma_merged_halves(
    input: Seq<Tree>,
    mid: int,
    l: Seq<Tree>,
    r: Seq<Tree>,
    out: Seq<Tree>,
)
    requires
        0 <= mid <= input.len(),
        stable_sorted(input.take(mid), l),
        stable_sorted(input.skip(mid), r),
        merging(l, r, l.len() as int, r.len() as int, out),
    ensures
        stable_sorted(input, out),
{
    let first = input.take(mid);
    let second = input.skip(mid);
    assert(first + second =~= input);
    assert(l.take(l.len() as int) =~= l);
    assert(r.take(r.len() as int) =~= r);
    lemma_multiset_commutative(first, second);
    assert forall|v: nat| #[trigger] out.filter(with_total(v)) == input.filter(with_total(v)) by {
        Seq::filter_distributes_over_add(first, second, with_total(v));
        assert(l.filter(with_total(v)) == first.filter(with_total(v)));
        assert(r.filter(with_total(v)) == second.filter(with_total(v)));
    }
}

/// A list of at most one entry is in display order.
proof fn lemma_short_is_sorted(s: Seq<Tree>)
    requires
        s.len() <= 1,
    ensures
        stable_sorted(s, s),
{
}

/// Puts the entries in display order.
fn merge_sort(v: Vec<Keyed>) -> (out: Vec<Keyed>)
    requires
        keyed(v@),
    ensures
        keyed(out@),
        stable_sorted(trees(v@), trees(out@)),
    decreases v@.len(),
{
    if v.len() <= 1 {
        proof {
            lemma_short_is_sorted(trees(v@));
        }
        return v;
    }
    let ghost input = trees(v@);
    let mid = v.len() / 2;
    let mut left = v;
    let right = left.split_off(mid);
    proof {
        assert(trees(left@) =~= input.take(mid as int));
        assert(trees(right@) =~= input.skip(mid as int));
        assert(keyed(left@)) by {
            assert forall|i: int| 0 <= i < left@.len() implies (#[trigger] left@[i]).key
                == left@[i].item@.total_size() by {
                assert(left@[i] == v@[i]);
            }
        }
        assert(keyed(right@)) by {
            assert forall|i: int| 0 <= i < right@.len() implies (#[trigger] right@[i]).key
                == right@[i].item@.total_size() by {
                assert(right@[i] == v@[mid + i]);
            }
        }
    }
    let l = merge_sort(left);
    let r = merge_sort(right);
    let out = merge(l, r);
    proof {
        lemma_merged_halves(input, mid as int, trees(l@), trees(r@), trees(out@));
    }
    out
}

/// Puts entries in display order: by non-increasing total size, entries of
/// equal total in the order given.
pub fn sort_by_total(items: Vec<Item>) -> (sorted: Vec<Item>)
    requires
        forall|i: int| 0 <= i < items@.len() ==> (#[trigger] items@[i])@.total_size() <= u64::MAX,
    ensures
        views(sorted@) == display_order(views(items@)),
        stable_sorted(views(items@), views(sorted@)),
        Tree::sum_totals(views(sorted@)) == Tree::sum_totals(views(items@)),
{
    let mut totals: Vec<u64> = Vec::new();
    let mut i: usize = 0;
    while i < items.len()
        invariant
            0 <= i <= items@.len(),
            totals@.len() == i,
            forall|k: int| 0 <= k < items@.len() ==> (#[trigger] items@[k])@.total_size() <= u64::MAX,
            forall|k: int| 0 <= k < i ==> #[trigger] totals@[k] == items@[k]@.total_size(),
        decreases items@.len() - i,
    {
        totals.push(items[i].total());
        i = i + 1;
    }
    sort_with_totals(items, totals)
}

/// Puts entries in display order, their total sizes given with them:
/// `totals` holds the total size of each entry, at the same position.
pub fn sort_with_totals(items: Vec<Item>, totals: Vec<u64>) -> (sorted: Vec<Item>)
    requires
        totals@.len() == items@.len(),
        forall|i: int| 0 <= i < items@.len() ==> #[trigger] totals@[i] == items@[i]@.total_size(),
    ensures
        views(sorted@) == display_order(views(items@)),
        stable_sorted(views(items@), views(sorted@)),
        Tree::sum_totals(views(sorted@)) == Tree::sum_totals(views(items@)),
{
    let ghost input = views(items@);
    let mut rest = reversed(items);
    let mut keys = reversed(totals);
    let mut with_keys: Vec<Keyed> = Vec::new();
    assert(trees(with_keys@) =~= input.take(0));
    while rest.len() > 0
        invariant
            rest@.len() + with_keys@.len() == items@.len(),
            keys@.len() == rest@.len(),
            totals@.len() == items@.len(),
            input == views(items@),
            forall|k: int| 0 <= k < rest@.len() ==> #[trigger] rest@[k] == items@[items@.len() - 1 - k],
            forall|k: int| 0 <= k < keys@.len() ==> #[trigger] keys@[k] == totals@[totals@.len() - 1 - k],
            forall|i: int| 0 <= i < items@.len() ==> #[trigger] totals@[i] == items@[i]@.total_size(),
            keyed(with_keys@),
            trees(with_keys@) == input.take(with_keys@.len() as int),
        decreases rest@.len(),
    {
        let ghost done = with_keys@.len() as int;
        let ghost before = rest@;
        let ghost keys_before = keys@;
        let item = rest.pop().unwrap();
        let key = keys.pop().unwrap();
        assert(item == before[before.len() - 1]);
        assert(item == items@[done]);
        assert(key == keys_before[keys_before.len() - 1]);
        assert(key == totals@[done]);
        with_keys.push(Keyed { key, item });
        assert(trees(with_keys@) =~= input.take(done + 1));
    }
    assert(input.take(with_keys@.len() as int) =~= input);
    let in_order = merge_sort(with_keys);
    let ghost ordered = trees(in_order@);
    proof {
        lemma_display_order_only(input, ordered);
        lemma_display_order(input);
    }
    let mut back = reversed(in_order);
    let mut sorted: Vec<Item> = Vec::new();
    assert(views(sorted@) =~= ordered.take(0));
    while back.len() > 0
        invariant
            back@.len() + sorted@.len() == in_order@.len(),
            ordered == trees(in_order@),
            forall|k: int| 0 <= k < back@.len() ==> #[trigger] back@[k] == in_order@[in_order@.len() - 1 - k],
            views(sorted@) == ordered.take(sorted@.len() as int),
        decreases back@.len(),
    {
        let ghost done = sorted@.len() as int;
        let ghost before = back@;
        let Keyed { key, item } = back.pop().unwrap();
        assert(before[before.len() - 1] == in_order@[done]);
        sorted.push(item);
        assert(views(sorted@) =~= ordered.take(done + 1));
    }
    assert(ordered.take(sorted@.len() as int) =~= ordered);
    sorted
}

} // verus!
