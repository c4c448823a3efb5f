use p4y::tree::{NodeType, TreeNode};
use p4y::ztag::parse_ztag;

#[test]
fn test_tree_node_creation() {
    let dir = TreeNode::new_directory("src".to_string(), "//depot/src".to_string());
    assert_eq!(dir.node_type, NodeType::Directory);
    assert_eq!(dir.name, "src");
    assert_eq!(dir.path, "//depot/src");

    let file = TreeNode::new_file("main.rs".to_string(), "//depot/src/main.rs".to_string());
    assert_eq!(file.node_type, NodeType::File);
    assert_eq!(file.name, "main.rs");
    assert_eq!(file.path, "//depot/src/main.rs");
}

#[test]
fn test_parsing_dirs_output() {
    let output = "... dir //depot/p4y/src\n\n... dir //depot/p4y/tests\n";
    let ztag = parse_ztag(output);
    let mut children = Vec::new();
    for record in ztag.records {
        if let Some(path) = record.get("dir") {
            let name = path.split('/').last().unwrap_or("").to_string();
            children.push(TreeNode::new_directory(name, path.clone()));
        }
    }
    assert_eq!(children.len(), 2);
    assert_eq!(children[0].name, "src");
    assert_eq!(children[1].name, "tests");
}

#[test]
fn test_parsing_files_output() {
    let output = "... depotFile //depot/p4y/Cargo.toml\n... rev 1\n\n... depotFile //depot/p4y/README.md\n... rev 2\n";
    let ztag = parse_ztag(output);
    let mut children = Vec::new();
    for record in ztag.records {
        if let Some(path) = record.get("depotFile") {
            let name = path.split('/').last().unwrap_or("").to_string();
            children.push(TreeNode::new_file(name, path.clone()));
        }
    }
    assert_eq!(children.len(), 2);
    assert_eq!(children[0].name, "Cargo.toml");
    assert_eq!(children[1].name, "README.md");
}
