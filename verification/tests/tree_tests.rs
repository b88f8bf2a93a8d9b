use puzzle_core::commands::{build_tree, parse_command, Command, WorkingPath};
use puzzle_core::directory::Directory;
use puzzle_core::traversal::{
    checked_sum_small_directories, smallest_directory_at_least, sum_small_directories,
};

fn to_lines(parts: &[&str]) -> Vec<String> {
    parts.iter().map(|p| p.to_string()).collect()
}

fn session() -> Vec<Command> {
    let chunks: Vec<Vec<String>> = vec![
        to_lines(&["cd /"]),
        to_lines(&["ls", "dir a", "14848514 b.txt"]),
        to_lines(&["cd a"]),
        to_lines(&["ls", "29116 f", "2557 g", "62596 h.lst"]),
        to_lines(&["cd .."]),
    ];
    chunks
        .iter()
        .map(|c| parse_command(c).expect("command should parse"))
        .collect()
}

#[test]
fn end_to_end_sizes() {
    let root = build_tree(session()).expect("session should build");
    assert_eq!(root.size(), 14848514 + 29116 + 2557 + 62596);
    assert_eq!(root.size(), 14942783);
    let a = root.subdir_named(&"a".to_string()).expect("a exists");
    assert_eq!(a.size(), 29116 + 2557 + 62596);
    assert_eq!(a.size(), 94269);
}

#[test]
fn end_to_end_small_directory_sum() {
    let root = build_tree(session()).expect("session should build");
    assert_eq!(sum_small_directories(&root, 100000), 94269);
}

#[test]
fn end_to_end_smallest_sufficient() {
    let root = build_tree(session()).expect("session should build");
    let total = root.size();
    assert_eq!(total, 14942783);
    // a headroom that both nodes clear still returns the smaller one
    assert_eq!(smallest_directory_at_least(&root, 90000), Some(94269));
    // only the root is large enough here
    assert_eq!(smallest_directory_at_least(&root, 94270), Some(14942783));
    // nothing is this large
    assert_eq!(smallest_directory_at_least(&root, total + 1), None);
}

#[test]
fn size_counts_each_file_once() {
    // the root's size equals the sum of all file sizes, wherever declared
    let root = build_tree(session()).expect("session should build");
    let mut iter = root.traverse();
    let mut file_total: u64 = 0;
    let mut nodes = 0;
    while let Some((_, _size)) = iter.next() {
        nodes += 1;
    }
    assert_eq!(nodes, 2);
    // collect own-file sums by walking the two nodes directly
    for (_, size) in root.files.iter() {
        file_total += size;
    }
    let a = root.subdir_named(&"a".to_string()).expect("a exists");
    for (_, size) in a.files.iter() {
        file_total += size;
    }
    assert_eq!(file_total, root.size());
}

fn fragment(files: &[(&str, u64)]) -> Directory {
    Directory {
        subdirectories: Vec::new(),
        files: files.iter().map(|(n, s)| (n.to_string(), *s)).collect(),
    }
}

#[test]
fn merge_is_order_independent() {
    let a = fragment(&[("x", 1), ("y", 2)]);
    let b = fragment(&[("z", 3)]);

    let mut first = Directory::new();
    first.merge(fragment(&[("x", 1), ("y", 2)]));
    first.merge(fragment(&[("z", 3)]));

    let mut second = Directory::new();
    second.merge(b);
    second.merge(a);

    assert_eq!(first.file_count(), 3);
    assert_eq!(second.file_count(), 3);
    for name in ["x", "y", "z"] {
        assert_eq!(
            first.file_size_of(&name.to_string()),
            second.file_size_of(&name.to_string())
        );
    }
    assert_eq!(first.size(), second.size());
}

#[test]
fn merge_preserves_grandchildren() {
    // a fragment listed twice must not clobber previously found children
    let mut root = Directory::new();
    root.insert(&["a".to_string(), "b".to_string()], fragment(&[("deep", 7)]));
    root.insert(&["a".to_string()], fragment(&[("shallow", 5)]));
    let a = root.subdir_named(&"a".to_string()).expect("a exists");
    assert_eq!(a.file_size_of(&"shallow".to_string()), Some(5));
    let b = a.subdir_named(&"b".to_string()).expect("b kept");
    assert_eq!(b.file_size_of(&"deep".to_string()), Some(7));
    assert_eq!(root.size(), 12);
}

#[test]
fn stub_then_listing_equals_direct_insert() {
    let path = ["a".to_string(), "b".to_string()];

    let mut stubbed = Directory::new();
    stubbed.insert(&path, Directory::new());
    stubbed.insert(&path, fragment(&[("f", 10), ("g", 20)]));

    let mut direct = Directory::new();
    direct.insert(&path, fragment(&[("f", 10), ("g", 20)]));

    assert_eq!(stubbed.size(), direct.size());
    let sb = stubbed
        .subdir_named(&"a".to_string())
        .and_then(|a| a.subdir_named(&"b".to_string()))
        .expect("chain exists");
    let db = direct
        .subdir_named(&"a".to_string())
        .and_then(|a| a.subdir_named(&"b".to_string()))
        .expect("chain exists");
    assert_eq!(sb.file_size_of(&"f".to_string()), Some(10));
    assert_eq!(db.file_size_of(&"f".to_string()), Some(10));
    assert_eq!(sb.file_count(), db.file_count());
    assert_eq!(sb.subdir_count(), db.subdir_count());
}

#[test]
fn traversal_parent_before_descendants() {
    // a chain five directories deep: parent must always come first
    let mut root = Directory::new();
    let chain: Vec<String> = ["a", "b", "c", "d", "e"].iter().map(|s| s.to_string()).collect();
    for depth in 1..=chain.len() {
        root.insert(&chain[..depth], fragment(&[("leaf", depth as u64)]));
    }
    let mut iter = root.traverse();
    let mut names = Vec::new();
    while let Some((name, _)) = iter.next() {
        names.push(name);
    }
    assert_eq!(names, vec!["/", "a", "b", "c", "d", "e"]);
    assert!(iter.next().is_none());
}

#[test]
fn traversal_visits_each_node_once() {
    let root = build_tree(session()).expect("session should build");
    let mut iter = root.traverse();
    let mut seen = Vec::new();
    while let Some((name, size)) = iter.next() {
        seen.push((name, size));
    }
    assert_eq!(seen.len(), 2);
    assert_eq!(seen[0], ("/".to_string(), 14942783));
    assert_eq!(seen[1], ("a".to_string(), 94269));
}

#[test]
fn checked_size_reports_overflow() {
    let root = build_tree(session()).expect("session should build");
    assert_eq!(root.checked_size(), Some(14942783));
    let huge = Directory {
        subdirectories: Vec::new(),
        files: vec![("a".to_string(), u64::MAX), ("b".to_string(), 1)],
    };
    assert_eq!(huge.checked_size(), None);
}

#[test]
fn checked_sum_reports_overflow() {
    let root = build_tree(session()).expect("session should build");
    assert_eq!(checked_sum_small_directories(&root, 100000), Some(94269));
    // one file counted at three depths: the node sizes fit, their sum does not
    let mut nested = Directory::new();
    nested.insert(
        &["a".to_string(), "b".to_string()],
        fragment(&[("f", u64::MAX - 1)]),
    );
    assert_eq!(nested.checked_size(), Some(u64::MAX - 1));
    assert_eq!(checked_sum_small_directories(&nested, u64::MAX), None);
}

#[test]
fn working_path_rules() {
    let mut wp = WorkingPath::new();
    assert!(wp.change("a"));
    assert!(wp.change("b"));
    assert!(wp.change(".."));
    assert_eq!(wp.segments.len(), 1);
    assert!(wp.change("/"));
    assert_eq!(wp.segments.len(), 0);
    // popping at the root is refused
    assert!(!wp.change(".."));
}

#[test]
fn build_tree_rejects_bad_start() {
    let cmds = vec![parse_command(&to_lines(&["ls", "1 f"])).unwrap()];
    assert!(build_tree(cmds).is_none());
    let cmds2 = vec![
        parse_command(&to_lines(&["cd /"])).unwrap(),
        parse_command(&to_lines(&["cd .."])).unwrap(),
    ];
    assert!(build_tree(cmds2).is_none());
}
