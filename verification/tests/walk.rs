use baum::args::Config;
use baum::filter::should_display;
use baum::filter::should_measure;
use baum::line::Line;
use baum::order::visible_order;
use baum::render::summary;
use baum::tree::Dir;
use baum::tree::Entry;
use baum::tree::IoErrorKind;
use baum::tree::Node;
use baum::walk::can_walk;
use baum::walk::walk;
use baum::walk::walk_checked;
use baum::walk::Counts;

fn defaults() -> Config {
    Config {
        display_hidden: false,
        display_only_dirs: false,
        display_level: 0,
        display_indentation: true,
        display_bytes: false,
        ignored_dirs: Vec::new(),
    }
}

fn file(name: &str, size: u64) -> Entry {
    Entry { name: name.to_string(), node: Node::File { size: Ok(size) } }
}

fn unsized_file(name: &str, kind: IoErrorKind) -> Entry {
    Entry { name: name.to_string(), node: Node::File { size: Err(kind) } }
}

fn dir(name: &str, path: &str, entries: Vec<Entry>) -> Entry {
    Entry {
        name: name.to_string(),
        node: Node::Directory(Dir { path: path.to_string(), listing: Ok(entries) }),
    }
}

fn closed_dir(name: &str, path: &str, kind: IoErrorKind) -> Entry {
    Entry {
        name: name.to_string(),
        node: Node::Directory(Dir { path: path.to_string(), listing: Err(kind) }),
    }
}

fn root(entries: Vec<Entry>) -> Dir {
    Dir { path: "root".to_string(), listing: Ok(entries) }
}

fn zero() -> Counts {
    Counts { files: 0, dirs: 0, bytes: 0 }
}

fn run(config: &Config, dir: &Dir) -> (Counts, Vec<Line>, Result<(), IoErrorKind>) {
    let mut counts = zero();
    let mut out = Vec::new();
    assert!(can_walk(config, &counts, dir, &Vec::new()));
    let r = walk(config, &mut counts, dir, &Vec::new(), &mut out);
    (counts, out, r)
}

fn plain(lines: &[Line], indentation: bool) -> Vec<String> {
    colored::control::set_override(false);
    lines.iter().map(|line| line.render(indentation)).collect()
}

fn names(lines: &[Line]) -> Vec<&str> {
    lines.iter().map(|line| line.name.as_str()).collect()
}

fn line(columns: &[bool], last: bool, base: &str, name: &str, is_dir: bool, size: Option<u64>) -> Line {
    Line {
        columns: columns.to_vec(),
        last,
        base: base.to_string(),
        name: name.to_string(),
        is_dir,
        size,
    }
}

fn sample() -> Dir {
    root(vec![
        dir(
            "b",
            "root/b",
            vec![file("x", 1), dir("y", "root/b/y", vec![file("z", 2)])],
        ),
        file("a", 4),
        dir("c", "root/c", vec![file("q", 8)]),
    ])
}

#[test]
fn default_config_hides_dot_entries() {
    let tree = root(vec![file("a.txt", 10), file(".hidden", 5)]);
    let (counts, out, r) = run(&defaults(), &tree);
    assert_eq!(r, Ok(()));
    assert_eq!(out, vec![line(&[], true, "", "a.txt", false, None)]);
    assert_eq!(plain(&out, true), vec!["└── a.txt"]);
    assert_eq!(counts, Counts { files: 1, dirs: 0, bytes: 0 });
}

#[test]
fn hidden_entries_sort_before_letters() {
    let tree = root(vec![file("a.txt", 10), file(".hidden", 5)]);
    let config = Config { display_hidden: true, ..defaults() };
    let (counts, out, r) = run(&config, &tree);
    assert_eq!(r, Ok(()));
    assert_eq!(names(&out), vec![".hidden", "a.txt"]);
    assert_eq!(plain(&out, true), vec!["├── .hidden", "└── a.txt"]);
    assert_eq!(counts, Counts { files: 2, dirs: 0, bytes: 0 });
}

#[test]
fn empty_directory_adds_no_lines() {
    let tree = root(vec![dir("sub", "root/sub", Vec::new()), file("file.txt", 3)]);
    let (counts, out, r) = run(&defaults(), &tree);
    assert_eq!(r, Ok(()));
    assert_eq!(
        out,
        vec![
            line(&[], false, "", "file.txt", false, None),
            line(&[], true, "", "sub", true, None),
        ]
    );
    assert_eq!(plain(&out, true), vec!["├── file.txt", "└── sub"]);
    assert_eq!(counts, Counts { files: 1, dirs: 1, bytes: 0 });
}

#[test]
fn directories_only_on_files_shows_nothing() {
    let tree = root(vec![file("a", 1), file("b", 2), file("c", 3)]);
    let config = Config { display_only_dirs: true, ..defaults() };
    let (counts, out, r) = run(&config, &tree);
    assert_eq!(r, Ok(()));
    assert!(out.is_empty());
    assert_eq!(counts, zero());
    assert_eq!(summary(&counts, config.display_bytes), "\n0 files, 0 directories");
}

#[test]
fn bytes_are_shown_and_counted() {
    let tree = root(vec![file("data.bin", 2048)]);
    let config = Config { display_bytes: true, ..defaults() };
    let (counts, out, r) = run(&config, &tree);
    assert_eq!(r, Ok(()));
    assert_eq!(out, vec![line(&[], true, "", "data.bin", false, Some(2048))]);
    assert_eq!(plain(&out, true), vec!["└── data.bin 2.05 kB"]);
    assert_eq!(counts, Counts { files: 1, dirs: 0, bytes: 2048 });
    assert_eq!(summary(&counts, true), "\n1 files, 0 directories - 2.05 kB");
}

#[test]
fn nested_directories_are_walked_in_pre_order() {
    let (counts, out, r) = run(&defaults(), &sample());
    assert_eq!(r, Ok(()));
    assert_eq!(
        out,
        vec![
            line(&[], false, "", "a", false, None),
            line(&[], false, "", "b", true, None),
            line(&[true], false, "", "x", false, None),
            line(&[true], true, "", "y", true, None),
            line(&[true, false], true, "", "z", false, None),
            line(&[], true, "", "c", true, None),
            line(&[false], true, "", "q", false, None),
        ]
    );
    assert_eq!(counts, Counts { files: 4, dirs: 3, bytes: 0 });
}

#[test]
fn branches_are_four_wide_at_every_level() {
    let (_, out, _) = run(&defaults(), &sample());
    assert_eq!(
        plain(&out, true),
        vec![
            "├── a",
            "├── b",
            "│   ├── x",
            "│   └── y",
            "│       └── z",
            "└── c",
            "    └── q",
        ]
    );
}

#[test]
fn without_indentation_only_labels_are_written() {
    let config = Config { display_indentation: false, display_bytes: true, ..defaults() };
    let (_, out, _) = run(&config, &sample());
    assert_eq!(plain(&out, false), vec!["a 4 B", "b", "x 1 B", "y", "z 2 B", "c", "q 8 B"]);
}

#[test]
fn labels_carry_the_directory_path_from_level_one() {
    for level in [1u8, 2] {
        let config = Config { display_level: level, ..defaults() };
        let (_, out, _) = run(&config, &sample());
        assert_eq!(
            plain(&out, true),
            vec![
                "├── root\\a",
                "├── root\\b",
                "│   ├── root/b\\x",
                "│   └── root/b\\y",
                "│       └── root/b/y\\z",
                "└── root\\c",
                "    └── root/c\\q",
            ]
        );
        assert_eq!(out[4].base, "root/b/y\\");
    }
}

#[test]
fn a_prefix_is_kept_in_front_of_every_line() {
    let mut counts = zero();
    let mut out = Vec::new();
    let prefix = vec![true, false];
    let r = walk(&defaults(), &mut counts, &sample(), &prefix, &mut out);
    assert_eq!(r, Ok(()));
    assert_eq!(out[0].columns, vec![true, false]);
    assert_eq!(out[4].columns, vec![true, false, true, false]);
    assert_eq!(plain(&out, true)[4], "│       │       └── z");
}

#[test]
fn lines_and_counts_are_added_to_what_is_there() {
    let mut counts = Counts { files: 10, dirs: 20, bytes: 30 };
    let mut out = vec![line(&[], true, "", "earlier", false, None)];
    let config = Config { display_bytes: true, ..defaults() };
    let r = walk(&config, &mut counts, &sample(), &Vec::new(), &mut out);
    assert_eq!(r, Ok(()));
    assert_eq!(counts, Counts { files: 14, dirs: 23, bytes: 45 });
    assert_eq!(out.len(), 8);
    assert_eq!(out[0].name, "earlier");
    assert_eq!(out[1].name, "a");
}

#[test]
fn exactly_one_sibling_is_last_and_it_is_the_final_one() {
    let tree = root(vec![file("d", 0), file("b", 0), file("a", 0), file("c", 0)]);
    let (_, out, _) = run(&defaults(), &tree);
    let marks: Vec<bool> = out.iter().map(|line| line.last).collect();
    assert_eq!(marks, vec![false, false, false, true]);
    assert_eq!(plain(&out, true), vec!["├── a", "├── b", "├── c", "└── d"]);
}

#[test]
fn last_is_decided_after_filtering() {
    let tree = root(vec![file("a", 0), file("z", 0), file(".z", 0), dir("skip", "root/skip", vec![])]);
    let config = Config { ignored_dirs: vec!["z".to_string(), "skip".to_string()], ..defaults() };
    let (_, out, _) = run(&config, &tree);
    assert_eq!(out, vec![line(&[], true, "", "a", false, None)]);
}

#[test]
fn names_are_ordered_by_their_bytes() {
    let tree = root(vec![
        file("b", 0),
        file("a10", 0),
        file("B", 0),
        file("é", 0),
        file("a", 0),
        dir("Z", "root/Z", vec![]),
        file("a2", 0),
        file("z", 0),
        file("_", 0),
        file("1", 0),
        file("日本", 0),
        file("ab", 0),
    ]);
    let (_, out, _) = run(&defaults(), &tree);
    assert_eq!(names(&out), vec!["1", "B", "Z", "_", "a", "a10", "a2", "ab", "b", "z", "é", "日本"]);
    let mut sorted: Vec<&str> = names(&out);
    sorted.sort();
    assert_eq!(names(&out), sorted);
}

#[test]
fn visible_order_gives_positions_sorted_by_name() {
    let entries = vec![file("m", 0), file(".h", 0), file("a", 0), dir("d", "d", vec![]), file("z", 0)];
    assert_eq!(visible_order(&defaults(), &entries), vec![2, 3, 0, 4]);
    let hidden = Config { display_hidden: true, ..defaults() };
    assert_eq!(visible_order(&hidden, &entries), vec![1, 2, 3, 0, 4]);
    let dirs = Config { display_only_dirs: true, ..defaults() };
    assert_eq!(visible_order(&dirs, &entries), vec![3]);
    assert_eq!(visible_order(&defaults(), &Vec::new()), Vec::<usize>::new());
}

#[test]
fn entries_with_one_name_keep_their_order() {
    let entries = vec![file("same", 1), file("a", 0), dir("same", "p", vec![]), file("same", 3)];
    assert_eq!(visible_order(&defaults(), &entries), vec![1, 0, 2, 3]);
    let (_, out, _) = run(&Config { display_bytes: true, ..defaults() }, &root(entries));
    let sizes: Vec<Option<u64>> = out.iter().map(|line| line.size).collect();
    assert_eq!(sizes, vec![Some(0), Some(1), None, Some(3)]);
}

#[test]
fn many_entries_come_out_sorted() {
    let mut entries = Vec::new();
    let mut seed: u64 = 12345;
    for _ in 0..500 {
        seed = seed.wrapping_mul(6364136223846793005).wrapping_add(1442695040888963407);
        entries.push(file(&format!("n{}", (seed >> 33) % 1000), 0));
    }
    let order = visible_order(&defaults(), &entries);
    assert_eq!(order.len(), 500);
    for pair in order.windows(2) {
        let (a, b) = (&entries[pair[0]].name, &entries[pair[1]].name);
        assert!(a < b || (a == b && pair[0] < pair[1]));
    }
    let mut seen = order.clone();
    seen.sort();
    assert_eq!(seen, (0..500).collect::<Vec<usize>>());
}

#[test]
fn should_display_applies_each_rule() {
    let config = defaults();
    assert!(should_display("a.txt", false, &config));
    assert!(should_display("src", true, &config));
    assert!(should_display("", false, &config));
    assert!(!should_display(".git", true, &config));
    assert!(!should_display(".", true, &config));
    assert!(should_display("a.b", false, &config));
    let hidden = Config { display_hidden: true, ..defaults() };
    assert!(should_display(".git", true, &hidden));
    let dirs = Config { display_only_dirs: true, ..defaults() };
    assert!(!should_display("a.txt", false, &dirs));
    assert!(should_display("src", true, &dirs));
    assert!(!should_display(".git", true, &dirs));
    let ignoring = Config {
        ignored_dirs: vec!["target".to_string(), "a.txt".to_string()],
        display_hidden: true,
        ..defaults()
    };
    assert!(!should_display("target", true, &ignoring));
    assert!(!should_display("a.txt", false, &ignoring));
    assert!(should_display("target2", true, &ignoring));
    assert!(should_display("Target", true, &ignoring));
    assert!(should_display("src/target", true, &ignoring));
}

#[test]
fn shown_names_are_the_children_less_the_filtered() {
    let tree = root(vec![
        file("keep", 0),
        file(".dot", 0),
        dir("out", "root/out", vec![file("inner", 0)]),
        dir("in", "root/in", vec![file("out", 0), file("deep", 0)]),
        file("out", 0),
    ]);
    let config = Config { ignored_dirs: vec!["out".to_string()], ..defaults() };
    let (counts, out, _) = run(&config, &tree);
    assert_eq!(names(&out), vec!["in", "deep", "keep"]);
    assert_eq!(counts, Counts { files: 2, dirs: 1, bytes: 0 });
}

#[test]
fn counts_match_the_lines_shown() {
    for config in [
        defaults(),
        Config { display_hidden: true, display_bytes: true, ..defaults() },
        Config { display_only_dirs: true, ..defaults() },
        Config { ignored_dirs: vec!["b".to_string()], ..defaults() },
    ] {
        let (counts, out, _) = run(&config, &sample());
        assert_eq!((counts.files + counts.dirs) as usize, out.len());
        assert_eq!(counts.dirs as usize, out.iter().filter(|line| line.is_dir).count());
        assert_eq!(counts.bytes, out.iter().map(|line| line.size.unwrap_or(0)).sum::<u64>());
    }
}

#[test]
fn bytes_stay_zero_where_sizes_are_not_shown() {
    let (counts, out, _) = run(&defaults(), &sample());
    assert_eq!(counts.bytes, 0);
    assert!(out.iter().all(|line| line.size.is_none()));
}

#[test]
fn bytes_are_the_sizes_of_the_files_shown() {
    let tree = root(vec![
        file("a", 100),
        file(".b", 1000),
        dir("d", "root/d", vec![file("e", 10), file("skip", 10000)]),
        dir("skip", "root/skip", vec![file("f", 100000)]),
    ]);
    let config = Config {
        display_bytes: true,
        ignored_dirs: vec!["skip".to_string()],
        ..defaults()
    };
    let (counts, out, _) = run(&config, &tree);
    assert_eq!(counts, Counts { files: 2, dirs: 1, bytes: 110 });
    assert_eq!(out[1].size, None);
    assert_eq!(out[2].size, Some(10));
}

#[test]
fn walking_twice_gives_the_same() {
    let config = Config { display_bytes: true, display_level: 1, ..defaults() };
    let first = run(&config, &sample());
    let second = run(&config, &sample());
    assert_eq!(first, second);
    assert_eq!(plain(&first.1, true), plain(&second.1, true));
}

#[test]
fn a_root_that_cannot_be_listed_fails_at_once() {
    let tree = Dir { path: "gone".to_string(), listing: Err(IoErrorKind::NotFound) };
    let (counts, out, r) = run(&defaults(), &tree);
    assert_eq!(r, Err(IoErrorKind::NotFound));
    assert!(out.is_empty());
    assert_eq!(counts, zero());
}

#[test]
fn a_directory_that_cannot_be_listed_ends_the_walk() {
    let tree = root(vec![
        file("a", 1),
        dir("b", "root/b", vec![file("x", 1), closed_dir("y", "root/b/y", IoErrorKind::PermissionDenied), file("z", 1)]),
        file("c", 1),
    ]);
    let (counts, out, r) = run(&defaults(), &tree);
    assert_eq!(r, Err(IoErrorKind::PermissionDenied));
    assert_eq!(names(&out), vec!["a", "b", "x", "y"]);
    assert_eq!(counts, Counts { files: 2, dirs: 2, bytes: 0 });
}

#[test]
fn each_kind_of_failure_is_handed_back() {
    for kind in [
        IoErrorKind::NotFound,
        IoErrorKind::PermissionDenied,
        IoErrorKind::NotADirectory,
        IoErrorKind::Other,
    ] {
        let tree = root(vec![closed_dir("d", "root/d", kind)]);
        assert_eq!(run(&defaults(), &tree).2, Err(kind));
        let sized = root(vec![unsized_file("f", kind)]);
        assert_eq!(run(&Config { display_bytes: true, ..defaults() }, &sized).2, Err(kind));
    }
}

#[test]
fn a_size_that_cannot_be_read_ends_the_walk_before_the_file() {
    let tree = root(vec![file("a", 7), unsized_file("b", IoErrorKind::NotFound), file("c", 9)]);
    let config = Config { display_bytes: true, ..defaults() };
    let (counts, out, r) = run(&config, &tree);
    assert_eq!(r, Err(IoErrorKind::NotFound));
    assert_eq!(names(&out), vec!["a"]);
    assert_eq!(counts, Counts { files: 1, dirs: 0, bytes: 7 });
    assert_eq!((counts.files + counts.dirs) as usize, out.len());
}

#[test]
fn sizes_are_not_read_where_they_are_not_shown() {
    let tree = root(vec![file("a", 7), unsized_file("b", IoErrorKind::NotFound), file("c", 9)]);
    let (counts, out, r) = run(&defaults(), &tree);
    assert_eq!(r, Ok(()));
    assert_eq!(names(&out), vec!["a", "b", "c"]);
    assert_eq!(counts, Counts { files: 3, dirs: 0, bytes: 0 });
}

#[test]
fn what_is_filtered_out_cannot_fail() {
    let tree = root(vec![
        closed_dir(".git", "root/.git", IoErrorKind::PermissionDenied),
        closed_dir("target", "root/target", IoErrorKind::Other),
        unsized_file(".env", IoErrorKind::PermissionDenied),
        file("a", 1),
    ]);
    let config = Config {
        display_bytes: true,
        ignored_dirs: vec!["target".to_string()],
        ..defaults()
    };
    let (counts, out, r) = run(&config, &tree);
    assert_eq!(r, Ok(()));
    assert_eq!(names(&out), vec!["a"]);
    assert_eq!(counts, Counts { files: 1, dirs: 0, bytes: 1 });
}

#[test]
fn can_walk_tells_when_a_counter_would_overflow() {
    let tree = root(vec![file("a", 10), dir("d", "root/d", vec![file("b", 20)])]);
    let sized = Config { display_bytes: true, ..defaults() };
    let none = Vec::new();
    assert!(can_walk(&sized, &Counts { files: u32::MAX - 2, dirs: u32::MAX - 1, bytes: u64::MAX - 30 }, &tree, &none));
    assert!(!can_walk(&sized, &Counts { files: u32::MAX - 1, dirs: 0, bytes: 0 }, &tree, &none));
    assert!(!can_walk(&sized, &Counts { files: 0, dirs: u32::MAX, bytes: 0 }, &tree, &none));
    assert!(!can_walk(&sized, &Counts { files: 0, dirs: 0, bytes: u64::MAX - 29 }, &tree, &none));
    assert!(can_walk(&defaults(), &Counts { files: 0, dirs: 0, bytes: u64::MAX }, &tree, &none));
    let dirs = Config { display_only_dirs: true, ..defaults() };
    assert!(can_walk(&dirs, &Counts { files: u32::MAX, dirs: u32::MAX - 1, bytes: 0 }, &tree, &none));
}

#[test]
fn can_walk_counts_only_up_to_a_failure() {
    let tree = root(vec![
        file("a", 1),
        closed_dir("b", "root/b", IoErrorKind::Other),
        file("c", 1),
        file("d", 1),
    ]);
    let counts = Counts { files: u32::MAX - 1, dirs: u32::MAX - 1, bytes: 0 };
    assert!(can_walk(&defaults(), &counts, &tree, &Vec::new()));
    let mut counts = counts;
    let mut out = Vec::new();
    assert_eq!(walk(&defaults(), &mut counts, &tree, &Vec::new(), &mut out), Err(IoErrorKind::Other));
    assert_eq!(counts, Counts { files: u32::MAX, dirs: u32::MAX, bytes: 0 });
}

#[test]
fn sizes_that_add_up_beyond_a_counter_are_told() {
    let tree = root(vec![file("a", u64::MAX), file("b", 1)]);
    let sized = Config { display_bytes: true, ..defaults() };
    assert!(!can_walk(&sized, &zero(), &tree, &Vec::new()));
    assert!(can_walk(&sized, &zero(), &root(vec![file("a", u64::MAX)]), &Vec::new()));
}

#[test]
fn walk_checked_walks_where_the_counters_can_take_it() {
    let mut counts = Counts { files: 1, dirs: 1, bytes: 1 };
    let mut out = Vec::new();
    let config = Config { display_bytes: true, ..defaults() };
    let r = walk_checked(&config, &mut counts, &sample(), &Vec::new(), &mut out);
    assert_eq!(r, Some(Ok(())));
    assert_eq!(counts, Counts { files: 5, dirs: 4, bytes: 16 });
    assert_eq!(out.len(), 7);
    let closed = Dir { path: "gone".to_string(), listing: Err(IoErrorKind::NotADirectory) };
    let r = walk_checked(&config, &mut counts, &closed, &Vec::new(), &mut out);
    assert_eq!(r, Some(Err(IoErrorKind::NotADirectory)));
    assert_eq!(out.len(), 7);
}

#[test]
fn walk_checked_changes_nothing_where_they_cannot() {
    let before = Counts { files: u32::MAX - 3, dirs: 0, bytes: 0 };
    let mut counts = before;
    let mut out = vec![line(&[], true, "", "earlier", false, None)];
    let r = walk_checked(&defaults(), &mut counts, &sample(), &Vec::new(), &mut out);
    assert_eq!(r, None);
    assert_eq!(counts, before);
    assert_eq!(out, vec![line(&[], true, "", "earlier", false, None)]);
}

#[test]
fn should_measure_wants_shown_files_where_sizes_are_shown() {
    let sized = Config { display_bytes: true, ignored_dirs: vec!["skip".to_string()], ..defaults() };
    assert!(should_measure("a.txt", &sized));
    assert!(!should_measure(".env", &sized));
    assert!(!should_measure("skip", &sized));
    assert!(!should_measure("a.txt", &defaults()));
    assert!(!should_measure("a.txt", &Config { display_only_dirs: true, ..sized.clone() }));
    assert!(should_measure(".env", &Config { display_hidden: true, ..sized }));
}

#[test]
fn what_is_not_shown_does_not_change_the_walk() {
    let config = Config { ignored_dirs: vec!["skip".to_string()], ..defaults() };
    let full = root(vec![
        file("a", 5),
        dir("skip", "root/skip", vec![file("inner", 1)]),
        dir(".git", "root/.git", vec![file("HEAD", 1)]),
        dir("d", "root/d", vec![file(".x", 9), file("y", 3)]),
    ]);
    let pruned = root(vec![
        file("a", 0),
        dir("skip", "root/skip", vec![]),
        closed_dir(".git", "root/.git", IoErrorKind::Other),
        dir("d", "root/d", vec![unsized_file(".x", IoErrorKind::Other), file("y", 0)]),
    ]);
    assert_eq!(run(&config, &full), run(&config, &pruned));
}
