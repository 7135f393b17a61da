use codeowners::path_tree::NodeId;
use codeowners::path_tree::PathTree;

#[test]
fn debug_tree() {
    let mut tree = PathTree::new();
    tree.insert("foo/bar");
    tree.insert("foo/bar/baz");
    tree.insert("foo/qux");
    tree.insert("a/b/c/d");
    tree.insert("a/b/whatever");

    print_tree(&tree, PathTree::root_id(), 0);
}

fn print_tree(tree: &PathTree, node_id: NodeId, indent: usize) {
    for (segment, child_id) in tree.node(node_id).children.iter() {
        let name: String = segment.iter().collect();
        println!("{}{}", " ".repeat(indent), name);
        print_tree(tree, *child_id, indent + 2);
    }
}

#[test]
fn tree_shares_prefixes() {
    let mut tree = PathTree::new();
    tree.insert("foo/bar");
    tree.insert("foo/bar/baz");
    tree.insert("foo/qux");
    // root, foo, bar, baz, qux: shared prefixes allocate no second node
    assert_eq!(tree.len(), 5);
    let root = tree.node(PathTree::root_id());
    assert_eq!(root.children.len(), 1);
    let foo_id = root.children[0].1;
    let foo = tree.node(foo_id);
    assert_eq!(foo.children.len(), 2);
    let bar_id = foo.children[0].1;
    let bar = tree.node(bar_id);
    assert_eq!(bar.paths, vec!["foo/bar".to_string()]);
}
