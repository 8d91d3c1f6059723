use dui::item::Item;
use dui::navigator::{parse_command, Command, NavigationError, Navigator, Outcome};

fn file(name: &str, size: u64) -> Item {
    Item::file(name, size)
}

fn dir(name: &str, children: Vec<Item>) -> Item {
    Item::directory(name, children)
}

fn example() -> Item {
    let sub = dir("sub", vec![file("b.txt", 50), file("c.txt", 150)]);
    dir("root", vec![file("a.txt", 100), sub])
}

fn crumbs(nav: &Navigator) -> Vec<String> {
    nav.breadcrumb().into_iter().map(|n| String::from_utf8(n).unwrap()).collect()
}

#[test]
fn cursor_starts_at_the_root() {
    let tree = example();
    let nav = Navigator::new(&tree);
    assert_eq!(crumbs(&nav), vec!["root"]);
    assert_eq!(nav.current(), &tree);
}

#[test]
fn enter_moves_into_a_child_directory() {
    let tree = example();
    let mut nav = Navigator::new(&tree);
    assert_eq!(nav.enter(b"sub"), Ok(()));
    assert_eq!(crumbs(&nav), vec!["root", "sub"]);
    assert_eq!(nav.current().name().as_slice(), b"sub");
    assert_eq!(nav.listing().total, 200);
}

#[test]
fn enter_then_ascend_leads_back_to_the_start() {
    let tree = example();
    let mut nav = Navigator::new(&tree);
    let crumbs_before = crumbs(&nav);
    assert_eq!(nav.enter(b"sub"), Ok(()));
    assert_eq!(nav.ascend(), Ok(()));
    assert_eq!(crumbs(&nav), crumbs_before);
    assert_eq!(nav.current(), &tree);
    assert_eq!(nav.listing().total, 300);
}

#[test]
fn ascend_at_the_root_is_refused_and_changes_nothing() {
    let tree = example();
    let mut nav = Navigator::new(&tree);
    assert_eq!(nav.ascend(), Err(NavigationError::AlreadyAtTop));
    assert_eq!(crumbs(&nav), vec!["root"]);
    assert_eq!(nav.current(), &tree);
    assert_eq!(nav.ascend(), Err(NavigationError::AlreadyAtTop));
    assert_eq!(crumbs(&nav), vec!["root"]);
}

#[test]
fn enter_of_a_file_is_refused() {
    let tree = example();
    let mut nav = Navigator::new(&tree);
    assert_eq!(nav.enter(b"a.txt"), Err(NavigationError::NotADirectory));
    assert_eq!(crumbs(&nav), vec!["root"]);
}

#[test]
fn enter_of_an_unknown_name_is_refused() {
    let tree = example();
    let mut nav = Navigator::new(&tree);
    assert_eq!(nav.enter(b"nope"), Err(NavigationError::NotFound));
    assert_eq!(nav.enter(b"su"), Err(NavigationError::NotFound));
    assert_eq!(nav.enter(b"subx"), Err(NavigationError::NotFound));
    assert_eq!(nav.enter(b""), Err(NavigationError::NotFound));
    assert_eq!(crumbs(&nav), vec!["root"]);
}

#[test]
fn enter_looks_only_at_the_children_of_the_directory_shown() {
    let tree = example();
    let mut nav = Navigator::new(&tree);
    assert_eq!(nav.enter(b"c.txt"), Err(NavigationError::NotFound));
    assert_eq!(nav.enter(b"sub"), Ok(()));
    assert_eq!(nav.enter(b"c.txt"), Err(NavigationError::NotADirectory));
    assert_eq!(nav.enter(b"sub"), Err(NavigationError::NotFound));
}

#[test]
fn enter_takes_the_first_child_of_a_name() {
    let tree = dir("r", vec![file("twin", 9), dir("twin", vec![file("x", 1)])]);
    let mut nav = Navigator::new(&tree);
    assert_eq!(nav.enter(b"twin"), Err(NavigationError::NotADirectory));
}

#[test]
fn cursor_goes_down_and_up_several_levels() {
    let tree = dir("a", vec![dir("b", vec![dir("c", vec![file("f", 3)])])]);
    let mut nav = Navigator::new(&tree);
    assert_eq!(nav.enter(b"b"), Ok(()));
    assert_eq!(nav.enter(b"c"), Ok(()));
    assert_eq!(crumbs(&nav), vec!["a", "b", "c"]);
    assert_eq!(nav.ascend(), Ok(()));
    assert_eq!(crumbs(&nav), vec!["a", "b"]);
    assert_eq!(nav.ascend(), Ok(()));
    assert_eq!(nav.ascend(), Err(NavigationError::AlreadyAtTop));
    assert_eq!(crumbs(&nav), vec!["a"]);
}

#[test]
fn a_file_as_root_can_be_shown_but_not_left() {
    let tree = file("only", 12);
    let mut nav = Navigator::new(&tree);
    assert_eq!(nav.listing().total, 12);
    assert_eq!(nav.listing().child_count, 0);
    assert!(nav.listing().rows.is_empty());
    assert_eq!(nav.enter(b"only"), Err(NavigationError::NotFound));
    assert_eq!(nav.ascend(), Err(NavigationError::AlreadyAtTop));
}

#[test]
fn listing_of_the_example_has_the_documented_shares() {
    let tree = example();
    let nav = Navigator::new(&tree);
    let listing = nav.listing();
    assert_eq!(listing.total, 300);
    assert_eq!(listing.child_count, 2);
    assert_eq!(listing.rows.len(), 2);
    assert_eq!(listing.rows[0].entry.name().as_slice(), b"sub");
    assert!(listing.rows[0].entry.is_directory());
    assert_eq!(listing.rows[0].total, 200);
    assert_eq!(listing.rows[0].percent_hundredths, 6667);
    assert_eq!(listing.rows[1].entry.name().as_slice(), b"a.txt");
    assert!(!listing.rows[1].entry.is_directory());
    assert_eq!(listing.rows[1].total, 100);
    assert_eq!(listing.rows[1].percent_hundredths, 3333);
}

#[test]
fn listing_puts_directories_before_files_and_keeps_each_group_in_order() {
    let tree = dir(
        "r",
        vec![
            file("f-big", 1000),
            dir("d-small", vec![file("x", 1)]),
            file("f-small", 2),
            dir("d-big", vec![file("y", 500)]),
            dir("d-empty", Vec::new()),
        ],
    );
    let nav = Navigator::new(&tree);
    let listing = nav.listing();
    let got: Vec<(&[u8], u64)> =
        listing.rows.iter().map(|r| (r.entry.name().as_slice(), r.total)).collect();
    let expected: Vec<(&[u8], u64)> = vec![
        (b"d-big", 500),
        (b"d-small", 1),
        (b"d-empty", 0),
        (b"f-big", 1000),
        (b"f-small", 2),
    ];
    assert_eq!(got, expected);
    assert_eq!(listing.child_count, 5);
}

#[test]
fn empty_directory_is_listed_among_the_directories() {
    let tree = dir("r", vec![file("f", 10), dir("empty", Vec::new())]);
    let nav = Navigator::new(&tree);
    let listing = nav.listing();
    assert_eq!(listing.rows[0].entry.name().as_slice(), b"empty");
    assert!(listing.rows[0].entry.is_directory());
    assert_eq!(listing.rows[0].total, 0);
    assert_eq!(listing.rows[0].percent_hundredths, 0);
    assert_eq!(listing.rows[1].percent_hundredths, 10000);
}

#[test]
fn share_of_a_total_of_zero_is_zero() {
    let tree = dir("r", vec![file("a", 0), dir("d", Vec::new())]);
    let nav = Navigator::new(&tree);
    let listing = nav.listing();
    assert_eq!(listing.total, 0);
    assert!(listing.rows.iter().all(|r| r.percent_hundredths == 0));
}

#[test]
fn share_is_rounded_to_the_nearest_hundredth_halves_upward() {
    let tree = dir("r", vec![file("a", 19999), file("b", 1)]);
    let nav = Navigator::new(&tree);
    let listing = nav.listing();
    assert_eq!(listing.rows[0].percent_hundredths, 10000);
    assert_eq!(listing.rows[1].percent_hundredths, 1);
    let tree = dir("r", vec![file("a", 7), file("b", 1)]);
    let nav = Navigator::new(&tree);
    let listing = nav.listing();
    assert_eq!(listing.rows[0].percent_hundredths, 8750);
    assert_eq!(listing.rows[1].percent_hundredths, 1250);
}

#[test]
fn share_of_the_largest_sizes_does_not_overflow() {
    let tree = dir("r", vec![file("a", u64::MAX - 1), file("b", 1)]);
    let nav = Navigator::new(&tree);
    let listing = nav.listing();
    assert_eq!(listing.total, u64::MAX);
    assert_eq!(listing.rows[0].percent_hundredths, 10000);
    assert_eq!(listing.rows[1].percent_hundredths, 0);
}

#[test]
fn empty_line_ends_the_session() {
    assert_eq!(parse_command(b""), Command::Exit);
    assert_eq!(parse_command(b"\n"), Command::Exit);
    assert_eq!(parse_command(b"\r\n"), Command::Exit);
    assert_eq!(parse_command(b"\n\r\n\r"), Command::Exit);
}

#[test]
fn two_full_stops_ask_for_the_parent() {
    assert_eq!(parse_command(b".."), Command::Ascend);
    assert_eq!(parse_command(b"..\n"), Command::Ascend);
    assert_eq!(parse_command(b"..\r\n"), Command::Ascend);
}

#[test]
fn any_other_line_names_a_child() {
    assert_eq!(parse_command(b"sub\n"), Command::Enter(b"sub".to_vec()));
    assert_eq!(parse_command(b"."), Command::Enter(b".".to_vec()));
    assert_eq!(parse_command(b"...\n"), Command::Enter(b"...".to_vec()));
    assert_eq!(parse_command(b" ..\n"), Command::Enter(b" ..".to_vec()));
    assert_eq!(parse_command(b"a\nb\n"), Command::Enter(b"a\nb".to_vec()));
    assert_eq!(parse_command(b"x "), Command::Enter(b"x ".to_vec()));
}

#[test]
fn step_carries_out_commands_and_says_what_happened() {
    let tree = example();
    let mut nav = Navigator::new(&tree);
    assert_eq!(nav.step(&parse_command(b"sub\n")), Outcome::Moved);
    assert_eq!(crumbs(&nav), vec!["root", "sub"]);
    assert_eq!(
        nav.step(&parse_command(b"b.txt\n")),
        Outcome::Rejected(NavigationError::NotADirectory)
    );
    assert_eq!(
        nav.step(&parse_command(b"zzz\n")),
        Outcome::Rejected(NavigationError::NotFound)
    );
    assert_eq!(crumbs(&nav), vec!["root", "sub"]);
    assert_eq!(nav.step(&parse_command(b"..\n")), Outcome::Moved);
    assert_eq!(
        nav.step(&parse_command(b"..\n")),
        Outcome::Rejected(NavigationError::AlreadyAtTop)
    );
    assert_eq!(crumbs(&nav), vec!["root"]);
    assert_eq!(nav.step(&parse_command(b"\n")), Outcome::Finished);
    assert_eq!(crumbs(&nav), vec!["root"]);
}
