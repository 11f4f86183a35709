use treeprint::glyphs::GlyphSet;
use treeprint::render::{render_prefix, render_subtree, render_tree};
use treeprint::tree::{sorted_kept_indices, FsNode};

fn dir(name: &str, children: Vec<FsNode>) -> FsNode {
    FsNode {
        name: name.to_string(),
        is_dir: true,
        is_file: false,
        is_symlink: false,
        children,
    }
}

fn file(name: &str) -> FsNode {
    FsNode {
        name: name.to_string(),
        is_dir: false,
        is_file: true,
        is_symlink: false,
        children: Vec::new(),
    }
}

fn symlink(name: &str) -> FsNode {
    FsNode {
        name: name.to_string(),
        is_dir: false,
        is_file: false,
        is_symlink: true,
        children: Vec::new(),
    }
}

/// An entry whose metadata could not be read, or a special file type:
/// neither directory-like nor file-like.
fn unknown(name: &str) -> FsNode {
    FsNode {
        name: name.to_string(),
        is_dir: false,
        is_file: false,
        is_symlink: false,
        children: Vec::new(),
    }
}

#[test]
fn empty_and_file_default_flags() {
    let root = dir("R", vec![dir("a", Vec::new()), file("b.txt")]);
    let lines = render_tree("R", &root, false, &GlyphSet::unicode());
    assert_eq!(lines, vec!["R".to_string(), "└───a".to_string()]);
}

#[test]
fn empty_and_file_show_files() {
    let root = dir("R", vec![dir("a", Vec::new()), file("b.txt")]);
    let lines = render_tree("R", &root, true, &GlyphSet::unicode());
    assert_eq!(
        lines,
        vec![
            "R".to_string(),
            "├───a".to_string(),
            "└───b.txt".to_string()
        ]
    );
}

#[test]
fn nested_directory_continuation() {
    let root = dir(
        "R",
        vec![dir("a", vec![dir("x", Vec::new())]), dir("z", Vec::new())],
    );
    let lines = render_tree("R", &root, false, &GlyphSet::unicode());
    assert_eq!(
        lines,
        vec![
            "R".to_string(),
            "├───a".to_string(),
            "│   └───x".to_string(),
            "└───z".to_string()
        ]
    );
}

#[test]
fn ascii_glyphs() {
    let root = dir(
        "R",
        vec![dir("a", vec![dir("x", Vec::new())]), dir("z", Vec::new())],
    );
    let lines = render_tree("R", &root, false, &GlyphSet::ascii());
    assert_eq!(
        lines,
        vec![
            "R".to_string(),
            "+---a".to_string(),
            "|   \\---x".to_string(),
            "\\---z".to_string()
        ]
    );
}

#[test]
fn blank_continuation_under_last_ancestor() {
    // `a` is the last displayed sibling, so the column under it is blank.
    let root = dir("R", vec![dir("a", vec![dir("x", vec![dir("y", Vec::new())])])]);
    let lines = render_tree("R", &root, false, &GlyphSet::unicode());
    assert_eq!(
        lines,
        vec![
            "R".to_string(),
            "└───a".to_string(),
            "    └───x".to_string(),
            "        └───y".to_string()
        ]
    );
}

#[test]
fn siblings_sorted_by_name() {
    let root = dir(
        "R",
        vec![file("cherry"), dir("banana", Vec::new()), file("apple")],
    );
    let lines = render_tree("R", &root, true, &GlyphSet::unicode());
    assert_eq!(
        lines,
        vec![
            "R".to_string(),
            "├───apple".to_string(),
            "├───banana".to_string(),
            "└───cherry".to_string()
        ]
    );
}

#[test]
fn reversed_enumeration_same_output() {
    let children = vec![file("cherry"), dir("banana", Vec::new()), file("apple")];
    let mut reversed: Vec<FsNode> = Vec::new();
    reversed.push(file("apple"));
    reversed.push(dir("banana", Vec::new()));
    reversed.push(file("cherry"));
    let root = dir("R", children);
    let root_rev = dir("R", reversed);
    let g = GlyphSet::unicode();
    let lines = render_tree("R", &root, true, &g);
    let lines_rev = render_tree("R", &root_rev, true, &g);
    assert_eq!(lines, lines_rev);
}

#[test]
fn rendering_twice_is_byte_identical() {
    let root = dir(
        "R",
        vec![dir("a", vec![file("f"), dir("b", Vec::new())]), file("c")],
    );
    let g = GlyphSet::unicode();
    let first = render_tree("R", &root, true, &g);
    let second = render_tree("R", &root, true, &g);
    assert_eq!(first, second);
}

#[test]
fn files_hidden_by_default() {
    // A directory holding only files prints no lines at that level.
    let root = dir("R", vec![file("a"), file("b")]);
    let lines = render_tree("R", &root, false, &GlyphSet::unicode());
    assert_eq!(lines, vec!["R".to_string()]);
}

#[test]
fn symlink_is_leaf_shown_with_files() {
    let root = dir("R", vec![symlink("link"), dir("d", Vec::new())]);
    let g = GlyphSet::unicode();
    let without = render_tree("R", &root, false, &g);
    assert_eq!(without, vec!["R".to_string(), "└───d".to_string()]);
    let with = render_tree("R", &root, true, &g);
    assert_eq!(
        with,
        vec![
            "R".to_string(),
            "├───d".to_string(),
            "└───link".to_string()
        ]
    );
}

#[test]
fn unknown_entries_are_skipped() {
    let root = dir("R", vec![unknown("sock"), file("f"), dir("d", Vec::new())]);
    let lines = render_tree("R", &root, true, &GlyphSet::unicode());
    assert_eq!(
        lines,
        vec!["R".to_string(), "├───d".to_string(), "└───f".to_string()]
    );
}

#[test]
fn unreadable_subdirectory_prints_as_leaf() {
    // An unreadable directory is snapshotted with no children: its own line
    // is still printed, nothing below it.
    let unreadable = dir("locked", Vec::new());
    let root = dir("R", vec![unreadable, dir("open", vec![file("f")])]);
    let lines = render_tree("R", &root, true, &GlyphSet::unicode());
    assert_eq!(
        lines,
        vec![
            "R".to_string(),
            "├───locked".to_string(),
            "└───open".to_string(),
            "    └───f".to_string()
        ]
    );
}

#[test]
fn subtree_only_renders_children() {
    // The recursive renderer never prints its own starting directory.
    let root = dir("R", Vec::new());
    let prefix: Vec<bool> = Vec::new();
    let lines = render_subtree(&root, true, &prefix, &GlyphSet::unicode());
    assert!(lines.is_empty());
}

#[test]
fn prefix_rendering_depths() {
    let g = GlyphSet::unicode();
    let empty: Vec<bool> = Vec::new();
    assert_eq!(render_prefix(&empty, &g), "".to_string());
    assert_eq!(render_prefix(&vec![true], &g), "└───".to_string());
    assert_eq!(render_prefix(&vec![false], &g), "├───".to_string());
    assert_eq!(
        render_prefix(&vec![true, false, true], &g),
        "    │   └───".to_string()
    );
    assert_eq!(
        render_prefix(&vec![false, true, false], &g),
        "│       ├───".to_string()
    );
}

#[test]
fn display_order_selects_and_sorts() {
    let children = vec![file("b"), dir("c", Vec::new()), file("a"), unknown("0")];
    let node = dir("R", children);
    let without_files = sorted_kept_indices(&node.children, false);
    assert_eq!(without_files, vec![1]);
    let with_files = sorted_kept_indices(&node.children, true);
    assert_eq!(with_files, vec![2, 0, 1]);
}
