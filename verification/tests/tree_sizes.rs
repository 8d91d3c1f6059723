use dui::item::Item;

fn file(name: &str, size: u64) -> Item {
    Item::file(name, size)
}

fn dir(name: &str, children: Vec<Item>) -> Item {
    Item::directory(name, children)
}

fn names(items: &[Item]) -> Vec<String> {
    items.iter().map(|i| String::from_utf8(i.name().clone()).unwrap()).collect()
}

#[test]
fn file_is_a_leaf_of_its_own_size() {
    let f = file("a.txt", 100);
    assert_eq!(f.name().as_slice(), b"a.txt");
    assert_eq!(f.own_size(), 100);
    assert!(!f.is_directory());
    assert!(f.children().is_empty());
    assert_eq!(f.total(), 100);
    assert_eq!(f.checked_total(), Some(100));
    assert_eq!(f.count(), Some(1));
}

#[test]
fn directory_has_no_size_of_its_own() {
    let d = dir("d", vec![file("x", 7)]);
    assert_eq!(d.own_size(), 0);
    assert!(d.is_directory());
    assert_eq!(d.total(), 7);
}

#[test]
fn empty_directory_is_a_directory_of_total_zero() {
    let d = dir("empty", Vec::new());
    assert_eq!(d.name().as_slice(), b"empty");
    assert_eq!(d.own_size(), 0);
    assert!(d.is_directory());
    assert!(d.children().is_empty());
    assert_eq!(d.total(), 0);
    assert_eq!(d.count(), Some(1));
}

#[test]
fn total_is_own_size_plus_totals_of_children_at_depth_four() {
    let level3 = dir("l3", vec![file("f1", 1), file("f2", 2)]);
    let level2 = dir("l2", vec![level3, file("f3", 30)]);
    let level1 = dir("l1", vec![file("f4", 400), level2, file("f5", 5000)]);
    let root = dir("root", vec![level1, file("f6", 60000)]);
    assert_eq!(root.total(), 65433);
    assert_eq!(root.checked_total(), Some(65433));
    assert_eq!(root.count(), Some(10));
    fn check(item: &Item) {
        let sum: u64 = item.children().iter().map(|c| c.total()).sum();
        assert_eq!(item.total(), item.own_size() + sum);
        assert!(item.total() >= item.own_size());
        for c in item.children() {
            assert!(item.total() >= c.total());
            check(c);
        }
    }
    check(&root);
}

#[test]
fn example_tree_has_the_documented_totals_and_order() {
    let sub = dir("sub", vec![file("b.txt", 50), file("c.txt", 150)]);
    let root = dir("root", vec![file("a.txt", 100), sub]);
    assert_eq!(root.total(), 300);
    assert_eq!(names(root.children()), vec!["sub", "a.txt"]);
    assert_eq!(root.children()[0].total(), 200);
    assert_eq!(root.children()[1].total(), 100);
    assert_eq!(names(root.children()[0].children()), vec!["c.txt", "b.txt"]);
}

#[test]
fn children_stand_by_non_increasing_total() {
    let d = dir(
        "d",
        vec![file("s", 1), file("l", 900), file("m", 30), file("z", 0), file("xl", 5000)],
    );
    assert_eq!(names(d.children()), vec!["xl", "l", "m", "s", "z"]);
    let totals: Vec<u64> = d.children().iter().map(|c| c.total()).collect();
    assert!(totals.windows(2).all(|w| w[0] >= w[1]));
}

#[test]
fn children_of_equal_total_keep_the_order_in_which_they_were_found() {
    let d = dir(
        "d",
        vec![
            file("first", 10),
            file("big", 99),
            file("second", 10),
            dir("third", vec![file("inner", 10)]),
            file("fourth", 10),
            file("small", 1),
        ],
    );
    assert_eq!(names(d.children()), vec!["big", "first", "second", "third", "fourth", "small"]);
}

#[test]
fn sorting_keeps_every_entry() {
    let d = dir("d", vec![file("a", 5), file("a", 5), file("b", 6)]);
    assert_eq!(names(d.children()), vec!["b", "a", "a"]);
    assert_eq!(d.total(), 16);
}

#[test]
fn sort_by_total_orders_a_plain_list() {
    let sorted = dui::order::sort_by_total(vec![file("a", 1), file("b", 3), file("c", 2), file("d", 3)]);
    assert_eq!(names(&sorted), vec!["b", "d", "c", "a"]);
}

#[test]
fn total_that_does_not_fit_is_reported_as_none() {
    let d = dir("huge", vec![file("a", u64::MAX), file("b", 1)]);
    assert_eq!(d.checked_total(), None);
    let e = dir("edge", vec![file("a", u64::MAX - 1), file("b", 1)]);
    assert_eq!(e.checked_total(), Some(u64::MAX));
    assert_eq!(e.total(), u64::MAX);
}

#[test]
fn sorting_a_long_list_agrees_with_a_stable_sort_by_size() {
    let mut state: u64 = 0x2545_F491_4F6C_DD1D;
    let mut sizes: Vec<u64> = Vec::new();
    for _ in 0..5000 {
        state ^= state << 13;
        state ^= state >> 7;
        state ^= state << 17;
        sizes.push(state % 64);
    }
    let items: Vec<Item> =
        sizes.iter().enumerate().map(|(i, s)| file(&format!("f{}", i), *s)).collect();
    let mut expected: Vec<(usize, u64)> = sizes.iter().copied().enumerate().collect();
    expected.sort_by(|a, b| b.1.cmp(&a.1));
    let sorted = dui::order::sort_by_total(items);
    assert_eq!(sorted.len(), 5000);
    for (item, (i, s)) in sorted.iter().zip(expected.iter()) {
        assert_eq!(item.name().as_slice(), format!("f{}", i).as_bytes());
        assert_eq!(item.own_size(), *s);
    }
}

#[test]
fn sorting_leaves_an_ordered_list_as_it_is() {
    let sorted = dui::order::sort_by_total(vec![file("a", 3), file("b", 3), file("c", 1)]);
    assert_eq!(names(&sorted), vec!["a", "b", "c"]);
    assert!(dui::order::sort_by_total(Vec::new()).is_empty());
    assert_eq!(names(&dui::order::sort_by_total(vec![file("only", 0)])), vec!["only"]);
}

#[test]
fn sorting_with_totals_at_hand_gives_the_same_order() {
    let sub = dir("sub", vec![file("x", 4), file("y", 5)]);
    let items = vec![file("a", 9), sub, file("b", 2), file("c", 9)];
    let totals: Vec<u64> = items.iter().map(|i| i.total()).collect();
    assert_eq!(totals, vec![9, 9, 2, 9]);
    let sorted = dui::order::sort_with_totals(items, totals);
    assert_eq!(names(&sorted), vec!["a", "sub", "c", "b"]);
}
