use treescout::tree::VirtualTree;

fn pb(s: &str) -> String {
    s.to_string()
}

#[test]
fn builds_tree_from_flat_paths() {
    let paths = vec![
        pb("/src/components/Button.tsx"),
        pb("/src/components/Input.tsx"),
        pb("/src/hooks/useButton.ts"),
    ];
    let tree = VirtualTree::from_paths(&paths);

    assert_eq!(tree.roots, vec![pb("/src")]);

    let mut src_children: Vec<String> = tree.children_of("/src");
    src_children.sort();
    assert_eq!(src_children, vec![pb("/src/components"), pb("/src/hooks")]);

    assert!(!tree.is_file("/src/components"));
    assert!(tree.is_file("/src/components/Button.tsx"));
}

#[test]
fn no_duplicate_children() {
    let paths = vec![pb("/root/dir/a.txt"), pb("/root/dir/b.txt")];
    let tree = VirtualTree::from_paths(&paths);
    assert_eq!(tree.children_of("/root/dir").len(), 2);
}

#[test]
fn multiple_roots() {
    let paths = vec![pb("/a/x.txt"), pb("/b/y.txt")];
    let tree = VirtualTree::from_paths(&paths);
    assert_eq!(tree.roots.len(), 2);
}

#[test]
fn in_phase1_reflects_candidate_paths() {
    let tree = VirtualTree::from_paths(&[pb("/src/components/Button.tsx")]);
    assert!(tree.in_phase1("/src"));
    assert!(tree.in_phase1("/src/components/Button.tsx"));
    assert!(!tree.in_phase1("/src/utils"));
}

#[test]
fn phase1_file_count_counts_only_files() {
    let tree = VirtualTree::from_paths(&[
        pb("/src/components/Button.tsx"),
        pb("/src/components/Input.tsx"),
        pb("/src/hooks/useButton.ts"),
    ]);
    assert_eq!(tree.phase1_file_count(), 3);
}

#[test]
fn expand_includes_sibling_dirs_from_extra_folders() {
    let tree = VirtualTree::from_paths(&[pb("/src/components/Button.tsx")]).with_extra_folders(&[
        pb("/src/components"),
        pb("/src/utils"),
        pb("/src/hooks"),
    ]);

    let expanded = tree.expand("/src/components");
    assert!(expanded.contains(&pb("/src/utils")));
    assert!(expanded.contains(&pb("/src/hooks")));
    assert!(!expanded.contains(&pb("/src/components")));
    assert!(expanded.contains(&pb("/src/components/Button.tsx")));
}

#[test]
fn expand_opens_unvisited_parent_dir() {
    let tree = VirtualTree::from_paths(&[pb("/src/components/Button.tsx")]).with_extra_folders(&[pb("/other/deep")]);
    let expanded = tree.expand("/other/deep");
    assert!(expanded.contains(&pb("/other")));
}

#[test]
fn expand_without_extra_folders_matches_children_of() {
    let tree = VirtualTree::from_paths(&[pb("/src/components/Button.tsx")]);
    assert_eq!(tree.expand("/src/components"), tree.children_of("/src/components"));
}

#[test]
fn duplicate_candidates_count_once() {
    let tree = VirtualTree::from_paths(&[pb("/a/b/x.txt"), pb("/a/b/x.txt"), pb("/a/b/y.txt")]);
    assert_eq!(tree.phase1_file_count(), 2);
    assert_eq!(tree.children_of("/a/b").len(), 2);
}

#[test]
fn roots_are_sorted() {
    let tree = VirtualTree::from_paths(&[pb("/zeta/q/x.txt"), pb("/alpha/q/y.txt"), pb("/mid/q/z.txt")]);
    assert_eq!(tree.roots, vec![pb("/alpha"), pb("/mid"), pb("/zeta")]);
}

#[test]
fn tree_children_are_tree_nodes_under_the_path() {
    let tree = VirtualTree::from_paths(&[pb("/p/q/r/s.txt"), pb("/p/q/t.txt")]);
    let kids = tree.children_of("/p/q");
    assert_eq!(kids.len(), 2);
    for k in &kids {
        assert!(tree.in_phase1(k));
    }
    assert!(tree.children_of("/nowhere").is_empty());
}

#[test]
fn paths_with_the_same_components_are_one_node() {
    let tree = VirtualTree::from_paths(&[pb("/a//b"), pb("/a/b"), pb("/a/./c")]);
    assert!(tree.is_file("/a/b"));
    assert!(tree.is_file("/a//b"));
    assert!(tree.in_phase1("/a/c"));
    assert_eq!(tree.phase1_file_count(), 2);
    assert_eq!(tree.children_of("/a//"), vec![pb("/a/b"), pb("/a/c")]);
}

#[test]
fn roots_follow_component_order() {
    let tree = VirtualTree::from_paths(&[pb("a-c/d.txt"), pb("a/b.txt")]);
    assert_eq!(tree.roots, vec![pb("a/b.txt"), pb("a-c/d.txt")]);
}
