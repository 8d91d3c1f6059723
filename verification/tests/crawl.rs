use dui::crawl::{CrawlError, Crawler, Metadata, Stage, Step};
use dui::item::Item;

/// A path as the crawl's caller may find it.
enum Node {
    Unreadable,
    File(&'static str, u64),
    Dir(&'static str, Vec<Node>),
    Unlistable(&'static str),
}

fn meta(name: &str, is_directory: bool, len: u64) -> Option<Metadata> {
    Some(Metadata { name: name.to_string(), is_directory, len })
}

/// Runs a crawl over `root`; returns the result and the number of paths
/// that were reported as skipped.
fn crawl(root: &Node) -> (Result<Item, CrawlError>, usize) {
    let mut skipped = 0;
    let mut open: Vec<&Vec<Node>> = Vec::new();
    let mut target: &Node = root;
    let mut stage = Stage::Stat(Crawler::new());
    loop {
        let step: Step = match stage {
            Stage::Finished(result) => return (result, skipped),
            Stage::Stat(crawler) => {
                assert_eq!(crawler.depth(), open.len());
                target = match crawler.target() {
                    None => root,
                    Some(index) => &open[open.len() - 1][index],
                };
                crawler.resolve(match target {
                    Node::Unreadable => None,
                    Node::File(name, len) => meta(name, false, *len),
                    Node::Dir(name, _) => meta(name, true, 4096),
                    Node::Unlistable(name) => meta(name, true, 4096),
                })
            }
            Stage::List(opening) => {
                assert_eq!(opening.depth(), open.len());
                match target {
                    Node::Dir(_, children) => {
                        open.push(children);
                        opening.resolve(Some(children.len()))
                    }
                    _ => opening.resolve(None),
                }
            }
        };
        if step.skipped {
            skipped += 1;
        }
        match &step.stage {
            Stage::Stat(crawler) => open.truncate(crawler.depth()),
            Stage::List(opening) => open.truncate(opening.depth()),
            Stage::Finished(_) => open.clear(),
        }
        stage = step.stage;
    }
}

fn names(items: &[Item]) -> Vec<String> {
    items.iter().map(|i| String::from_utf8(i.name().clone()).unwrap()).collect()
}

#[test]
fn crawl_of_a_file_gives_a_leaf_of_its_length() {
    let (result, skipped) = crawl(&Node::File("notes.txt", 321));
    assert_eq!(result, Ok(Item::file("notes.txt", 321)));
    assert_eq!(skipped, 0);
}

#[test]
fn crawl_of_an_empty_directory_gives_an_empty_directory() {
    let (result, skipped) = crawl(&Node::Dir("empty", Vec::new()));
    let item = result.unwrap();
    assert_eq!(item.name().as_slice(), b"empty");
    assert_eq!(item.own_size(), 0);
    assert!(item.is_directory());
    assert!(item.children().is_empty());
    assert_eq!(item.total(), 0);
    assert_eq!(skipped, 0);
}

#[test]
fn crawl_of_the_example_gives_the_documented_tree() {
    let root = Node::Dir(
        "root",
        vec![
            Node::File("a.txt", 100),
            Node::Dir("sub", vec![Node::File("b.txt", 50), Node::File("c.txt", 150)]),
        ],
    );
    let (result, skipped) = crawl(&root);
    let item = result.unwrap();
    assert_eq!(skipped, 0);
    assert_eq!(item.total(), 300);
    assert_eq!(item.own_size(), 0);
    assert_eq!(names(item.children()), vec!["sub", "a.txt"]);
    assert_eq!(item.children()[0].total(), 200);
    assert_eq!(item.children()[0].own_size(), 0);
    assert_eq!(names(item.children()[0].children()), vec!["c.txt", "b.txt"]);
}

#[test]
fn crawl_leaves_out_what_cannot_be_read_and_goes_on() {
    let root = Node::Dir(
        "root",
        vec![
            Node::Unreadable,
            Node::File("kept", 5),
            Node::Unlistable("locked"),
            Node::Dir("sub", vec![Node::Unreadable, Node::File("deep", 7), Node::Unreadable]),
            Node::Unreadable,
        ],
    );
    let (result, skipped) = crawl(&root);
    let item = result.unwrap();
    assert_eq!(skipped, 5);
    assert_eq!(names(item.children()), vec!["sub", "kept"]);
    assert_eq!(names(item.children()[0].children()), vec!["deep"]);
    assert_eq!(item.total(), 12);
}

#[test]
fn crawl_of_a_directory_whose_children_all_fail_gives_an_empty_directory() {
    let root = Node::Dir("root", vec![Node::Unreadable, Node::Unlistable("x")]);
    let (result, skipped) = crawl(&root);
    let item = result.unwrap();
    assert_eq!(skipped, 2);
    assert!(item.is_directory());
    assert!(item.children().is_empty());
}

#[test]
fn crawl_fails_where_the_root_cannot_be_read() {
    assert_eq!(crawl(&Node::Unreadable), (Err(CrawlError::RootUnreadable), 0));
    assert_eq!(crawl(&Node::Unlistable("root")), (Err(CrawlError::RootUnreadable), 0));
}

#[test]
fn crawl_fails_where_the_sizes_do_not_fit() {
    let root = Node::Dir(
        "root",
        vec![Node::File("a", u64::MAX), Node::Dir("d", vec![Node::File("b", 1)])],
    );
    assert_eq!(crawl(&root), (Err(CrawlError::TooLarge), 0));
    let root = Node::Dir("root", vec![Node::File("a", u64::MAX - 1), Node::File("b", 1)]);
    assert_eq!(crawl(&root).0.unwrap().total(), u64::MAX);
}

#[test]
fn crawl_keeps_children_of_equal_total_in_the_order_found() {
    let root = Node::Dir(
        "root",
        vec![
            Node::File("one", 4),
            Node::Dir("two", vec![Node::File("x", 4)]),
            Node::File("big", 8),
            Node::File("three", 4),
        ],
    );
    let item = crawl(&root).0.unwrap();
    assert_eq!(names(item.children()), vec!["big", "one", "two", "three"]);
}

#[test]
fn crawl_closes_nested_directories_that_end_together() {
    let root = Node::Dir(
        "a",
        vec![Node::Dir("b", vec![Node::Dir("c", vec![Node::Dir("d", Vec::new())])])],
    );
    let item = crawl(&root).0.unwrap();
    assert_eq!(item.count(), Some(4));
    assert_eq!(item.children()[0].children()[0].children()[0].name().as_slice(), b"d");
}

#[test]
fn crawl_asks_for_the_root_first_and_for_children_in_order() {
    let crawler = Crawler::new();
    assert_eq!(crawler.depth(), 0);
    assert_eq!(crawler.target(), None);
    let step = crawler.resolve(meta("r", true, 0));
    assert!(!step.skipped);
    let opening = match step.stage {
        Stage::List(opening) => opening,
        _ => panic!("a directory is listed next"),
    };
    let step = opening.resolve(Some(2));
    let crawler = match step.stage {
        Stage::Stat(crawler) => crawler,
        _ => panic!("the first child is visited next"),
    };
    assert_eq!(crawler.depth(), 1);
    assert_eq!(crawler.target(), Some(0));
    let step = crawler.resolve(None);
    assert!(step.skipped);
    let crawler = match step.stage {
        Stage::Stat(crawler) => crawler,
        _ => panic!("the second child is visited next"),
    };
    assert_eq!(crawler.target(), Some(1));
    let step = crawler.resolve(meta("f", false, 3));
    assert!(!step.skipped);
    match step.stage {
        Stage::Finished(Ok(item)) => {
            assert_eq!(item, Item::directory("r", vec![Item::file("f", 3)]))
        }
        _ => panic!("the crawl is over"),
    }
}
