use readtime::render::render_tree;
use readtime::tree::{build_tree, build_tree_with, tree_total_fits, Node};
use readtime::walker::FileInfo;

fn path(parts: &[&str]) -> Vec<String> {
    parts.iter().map(|p| p.to_string()).collect()
}

fn file(parts: &[&str], minutes: usize) -> FileInfo {
    FileInfo { path: path(parts), read_time_minutes: minutes }
}

#[test]
fn test_single_file() {
    let files = vec![file(&["/", "tmp", "test.md"], 1)];

    let tree = build_tree(&files, &path(&["/", "tmp", "test.md"]));
    assert!(matches!(tree, Node::File { .. }));
}

#[test]
fn test_directory_with_files() {
    let files = vec![
        file(&["/", "tmp", "dir", "file1.md"], 1),
        file(&["/", "tmp", "dir", "file2.md"], 2),
    ];

    let tree = build_tree(&files, &path(&["/", "tmp", "dir"]));

    if let Node::Directory { total_read_time_minutes, children, .. } = tree {
        assert_eq!(total_read_time_minutes, 3);
        assert_eq!(children.len(), 2);
    } else {
        panic!("Expected directory node");
    }
}

#[test]
fn test_render_single_file() {
    let node = Node::File { name: "test.md".to_string(), read_time_minutes: 5 };

    let output = render_tree(&node, None);
    assert!(output.contains("test.md"));
    assert!(output.contains("5 min"));
}

#[test]
fn test_render_directory() {
    let node = Node::Directory {
        name: "docs".to_string(),
        children: vec![
            Node::File { name: "readme.md".to_string(), read_time_minutes: 2 },
            Node::File { name: "guide.md".to_string(), read_time_minutes: 5 },
        ],
        total_read_time_minutes: 7,
    };

    let output = render_tree(&node, None);
    assert!(output.contains("docs/"));
    assert!(output.contains("readme.md"));
    assert!(output.contains("guide.md"));
    assert!(output.contains("Total: 7 min"));
}

#[test]
fn node_accessors() {
    let f = Node::File { name: "a.md".to_string(), read_time_minutes: 4 };
    assert_eq!(f.name(), "a.md");
    assert_eq!(f.read_time(), 4);
    assert!(!f.is_directory());
    let d = Node::Directory { name: "d".to_string(), children: vec![f], total_read_time_minutes: 4 };
    assert_eq!(d.name(), "d");
    assert_eq!(d.read_time(), 4);
    assert!(d.is_directory());
}

#[test]
fn nested_tree_rolls_up_totals_and_orders_children() {
    let files = vec![
        file(&["/", "nonexistent-root", "zeta.md"], 3),
        file(&["/", "nonexistent-root", "api", "endpoints.md"], 10),
        file(&["/", "nonexistent-root", "alpha.md"], 1),
        file(&["/", "nonexistent-root", "api", "auth.md"], 5),
        file(&["/", "nonexistent-root", "guides", "quick.md"], 2),
    ];
    let tree = build_tree(&files, &path(&["/", "nonexistent-root"]));
    match tree {
        Node::Directory { name, children, total_read_time_minutes } => {
            assert_eq!(name, "nonexistent-root");
            assert_eq!(total_read_time_minutes, 21);
            let names: Vec<&str> = children.iter().map(|c| c.name()).collect();
            assert_eq!(names, vec!["api", "guides", "alpha.md", "zeta.md"]);
            assert!(children[0].is_directory() && children[1].is_directory());
            assert_eq!(children[0].read_time(), 15);
            assert_eq!(children[1].read_time(), 2);
            let sum: usize = children.iter().map(|c| c.read_time()).sum();
            assert_eq!(sum, total_read_time_minutes);
            if let Node::Directory { children: api, .. } = &children[0] {
                let names: Vec<&str> = api.iter().map(|c| c.name()).collect();
                assert_eq!(names, vec!["auth.md", "endpoints.md"]);
            } else {
                panic!("Expected directory node");
            }
        }
        _ => panic!("Expected directory node"),
    }
}

#[test]
fn files_outside_base_are_ignored() {
    let files = vec![
        file(&["/", "nonexistent-root", "a.md"], 2),
        file(&["/", "elsewhere", "b.md"], 7),
        file(&["/", "nonexistent-root"], 9),
    ];
    let tree = build_tree(&files, &path(&["/", "nonexistent-root"]));
    assert_eq!(tree.read_time(), 2);
    assert!(tree.is_directory());
}

#[test]
fn empty_list_gives_empty_directory() {
    let tree = build_tree(&[], &path(&["docs"]));
    match tree {
        Node::Directory { name, children, total_read_time_minutes } => {
            assert_eq!(name, "docs");
            assert!(children.is_empty());
            assert_eq!(total_read_time_minutes, 0);
        }
        _ => panic!("Expected directory node"),
    }
}

#[test]
fn names_of_special_paths() {
    let tree = build_tree(&[file(&["/"], 3)], &path(&["/"]));
    assert_eq!(tree.name(), "unknown");
    let tree = build_tree(&[file(&[".", "a.md"], 3)], &path(&["."]));
    assert_eq!(tree.name(), ".");
}

#[test]
fn render_file_line_exactly() {
    let node = Node::File { name: "test.md".to_string(), read_time_minutes: 5 };
    let expected = format!("{:50} {:>6} min\n", "test.md", 5);
    assert_eq!(render_tree(&node, None), expected);
    assert_eq!(render_tree(&node, Some("other")), format!("{:50} {:>6} min\n", "other", 5));
}

#[test]
fn render_nested_exactly() {
    let node = Node::Directory {
        name: "docs".to_string(),
        children: vec![
            Node::Directory {
                name: "api".to_string(),
                children: vec![
                    Node::File { name: "auth.md".to_string(), read_time_minutes: 5 },
                    Node::File { name: "endpoints.md".to_string(), read_time_minutes: 10 },
                ],
                total_read_time_minutes: 15,
            },
            Node::File { name: "readme.md".to_string(), read_time_minutes: 1234567 },
        ],
        total_read_time_minutes: 1234582,
    };
    let mut expected = String::new();
    expected.push_str("docs/\n");
    expected.push_str(&format!("{}{:40} {:>6} min\n", "├── ", "api/", 15));
    expected.push_str(&format!("{}{:40} {:>6} min\n", "│   ├── ", "auth.md", 5));
    expected.push_str(&format!("{}{:40} {:>6} min\n", "│   └── ", "endpoints.md", 10));
    expected.push_str(&format!("{}{:40} {:>6} min\n", "└── ", "readme.md", 1234567));
    expected.push_str("\nTotal: 1234582 min\n");
    assert_eq!(render_tree(&node, None), expected);
}

#[test]
fn render_pads_by_characters() {
    let name = "é".repeat(45);
    let node = Node::File { name: name.clone(), read_time_minutes: 0 };
    assert_eq!(render_tree(&node, None), format!("{:50} {:>6} min\n", name, 0));
    let long = "x".repeat(60);
    let node = Node::File { name: long.clone(), read_time_minutes: usize::MAX };
    assert_eq!(render_tree(&node, None), format!("{:50} {:>6} min\n", long, usize::MAX));
}

#[test]
fn build_tree_with_answers_makes_file_nodes() {
    let files = vec![
        file(&["r", "sub", "a.md"], 4),
        file(&["r", "sub", "b.md"], 6),
        file(&["r", "top.md"], 1),
    ];
    let base = path(&["r"]);
    let tree = build_tree_with(&files, &base, &vec![]);
    assert_eq!(tree.read_time(), 11);
    if let Node::Directory { children, .. } = &tree {
        assert_eq!(children.len(), 2);
        assert_eq!(children[0].name(), "sub");
        assert!(children[0].is_directory());
        assert_eq!(children[0].read_time(), 10);
        assert_eq!(children[1].name(), "top.md");
        assert!(!children[1].is_directory());
    } else {
        panic!("Expected directory node");
    }
    // An answer that a child path is a file makes it a file node with the
    // time of the first file listed there.
    let tree = build_tree_with(&files, &base, &vec![path(&["r", "sub"])]);
    assert_eq!(tree.read_time(), 5);
    if let Node::Directory { children, .. } = &tree {
        let names: Vec<&str> = children.iter().map(|c| c.name()).collect();
        assert_eq!(names, vec!["sub", "top.md"]);
        assert!(!children[0].is_directory());
        assert_eq!(children[0].read_time(), 4);
    } else {
        panic!("Expected directory node");
    }
}

#[test]
fn build_tree_with_listed_files_as_answers_changes_nothing() {
    let files = vec![
        file(&["r", "sub", "a.md"], 4),
        file(&["r", "sub", "deep", "b.md"], 6),
        file(&["r", "top.md"], 1),
    ];
    let base = path(&["r"]);
    let answers: Vec<Vec<String>> = files.iter().map(|f| f.path.clone()).collect();
    let with_answers = render_tree(&build_tree_with(&files, &base, &answers), None);
    let without = render_tree(&build_tree_with(&files, &base, &vec![]), None);
    assert_eq!(with_answers, without);
    assert_eq!(build_tree_with(&files, &base, &answers).read_time(), 11);
}

#[test]
fn build_tree_on_paths_not_on_disk_is_the_tree_without_answers() {
    let files = vec![
        file(&["/", "nonexistent-root", "x", "a.md"], 2),
        file(&["/", "nonexistent-root", "b.md"], 3),
    ];
    let base = path(&["/", "nonexistent-root"]);
    let a = render_tree(&build_tree(&files, &base), None);
    let b = render_tree(&build_tree_with(&files, &base, &vec![]), None);
    assert_eq!(a, b);
}

#[test]
fn tree_total_fits_detects_overflow() {
    let base = path(&["r"]);
    let files = vec![file(&["r", "a.md"], usize::MAX), file(&["r", "b.md"], 1)];
    assert!(!tree_total_fits(&files, &base));
    let files = vec![file(&["r", "a.md"], usize::MAX), file(&["elsewhere", "b.md"], 1)];
    assert!(tree_total_fits(&files, &base));
    let files = vec![file(&["r", "a.md"], 2), file(&["r", "b.md"], 3)];
    assert!(tree_total_fits(&files, &base));
}
