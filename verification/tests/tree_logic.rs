use p4y::p4::P4Error;
use p4y::text::{contains_str, last_segment, str_le};
use p4y::tree::{
    after_dirs_listing, after_files_listing, children_of, listing_args, listing_children,
    sort_by_name, ChildrenStep, NodeType, TreeNode,
};

#[test]
fn last_segment_is_what_split_gives() {
    for p in ["//depot/a/b", "abc", "a/", "", "/", "//depot/dir/file.txt", "ü/ß"] {
        assert_eq!(last_segment(p), p.split('/').last().unwrap_or(""), "path {:?}", p);
    }
}

#[test]
fn contains_matches_std() {
    let hays = ["", "abc", "//x/*/ - no such file(s).", "no such file", "ababab"];
    let needles = ["", "a", "no such file(s)", "bab", "abc", "x"];
    for h in hays {
        for n in needles {
            assert_eq!(contains_str(h, n), h.contains(n), "{:?} {:?}", h, n);
        }
    }
}

#[test]
fn str_le_matches_std_order() {
    let words = ["", "a", "b", "ab", "B", "Z", "é", "z", "aé", "é1", "\u{10000}", "\u{ffff}"];
    for a in words {
        for b in words {
            assert_eq!(str_le(a, b), a <= b, "{:?} {:?}", a, b);
        }
    }
}

#[test]
fn listing_dirs_and_files() {
    let dirs = listing_children(
        Ok("... dir //depot/p4y/src\n\n... dir //depot/p4y/tests\n".to_string()),
        NodeType::Directory,
    )
    .unwrap();
    assert_eq!(dirs.len(), 2);
    assert_eq!(dirs[0].name, "src");
    assert_eq!(dirs[0].path, "//depot/p4y/src");
    assert_eq!(dirs[0].node_type, NodeType::Directory);
    assert!(dirs[0].children.is_none());
    assert!(!dirs[0].is_expanded);

    let files = listing_children(
        Ok("... depotFile //depot/p4y/Cargo.toml\n... rev 1\n\n... dir //x\n".to_string()),
        NodeType::File,
    )
    .unwrap();
    assert_eq!(files.len(), 1);
    assert_eq!(files[0].name, "Cargo.toml");
    assert_eq!(files[0].node_type, NodeType::File);
}

#[test]
fn listing_without_matches_is_empty() {
    let r = listing_children(
        Err(P4Error::Process("//depot/empty/* - no such file(s).\n".to_string())),
        NodeType::File,
    );
    assert_eq!(r.unwrap().len(), 0);
}

#[test]
fn listing_errors_pass_through() {
    match listing_children(Err(P4Error::Process("connect failed".to_string())), NodeType::Directory) {
        Err(P4Error::Process(m)) => assert_eq!(m, "connect failed"),
        _ => panic!("expected the error"),
    }
    let io = std::io::Error::new(std::io::ErrorKind::NotFound, "no p4");
    assert!(matches!(listing_children(Err(P4Error::Io(io)), NodeType::File), Err(P4Error::Io(_))));
}

#[test]
fn listing_arguments() {
    assert_eq!(listing_args(NodeType::Directory, "//depot/p4y"), vec!["dirs", "//depot/p4y/*"]);
    assert_eq!(listing_args(NodeType::File, "//depot/p4y"), vec!["files", "//depot/p4y/*"]);
}

fn node(name: &str, kind: NodeType) -> TreeNode {
    match kind {
        NodeType::Directory => TreeNode::new_directory(name.to_string(), format!("//d/{}", name)),
        NodeType::File => TreeNode::new_file(name.to_string(), format!("//d/{}", name)),
    }
}

#[test]
fn children_sorted_stably_like_sort_by() {
    let dirs = vec![node("src", NodeType::Directory), node("b", NodeType::Directory), node("doc", NodeType::Directory)];
    let files = vec![node("b", NodeType::File), node("README", NodeType::File), node("a.rs", NodeType::File)];
    let mut expected: Vec<(String, NodeType)> = dirs
        .iter()
        .chain(files.iter())
        .map(|n| (n.name.clone(), n.node_type.clone()))
        .collect();
    expected.sort_by(|a, b| a.0.cmp(&b.0));
    let got: Vec<(String, NodeType)> =
        children_of(dirs, files).into_iter().map(|n| (n.name, n.node_type)).collect();
    assert_eq!(got, expected);
    assert_eq!(got[0].0, "README");
    assert_eq!(got[2].1, NodeType::Directory);
    assert_eq!(got[3].1, NodeType::File);
}

#[test]
fn sort_of_nothing_and_clone() {
    assert!(sort_by_name(Vec::new()).is_empty());
    let mut parent = node("p", NodeType::Directory);
    parent.children = Some(vec![node("c", NodeType::File)]);
    parent.is_expanded = true;
    let copy = parent.clone();
    assert_eq!(copy.name, "p");
    assert!(copy.is_expanded);
    assert_eq!(copy.children.as_ref().unwrap()[0].name, "c");
}

#[test]
fn fetching_children_step_by_step() {
    let dirs = match after_dirs_listing(Ok("... dir //d/zeta\n\n... dir //d/alpha\n".to_string())) {
        ChildrenStep::ListFiles(dirs) => dirs,
        ChildrenStep::Done(_) => panic!("expected to list the files"),
    };
    assert_eq!(dirs.len(), 2);
    let children = after_files_listing(dirs, Ok("... depotFile //d/beta\n".to_string())).unwrap();
    let names: Vec<&str> = children.iter().map(|c| c.name.as_str()).collect();
    assert_eq!(names, vec!["alpha", "beta", "zeta"]);

    match after_dirs_listing(Err(P4Error::Process("//d/* - no such file(s).".to_string()))) {
        ChildrenStep::ListFiles(dirs) => assert!(dirs.is_empty()),
        ChildrenStep::Done(_) => panic!("expected to list the files"),
    }
    match after_dirs_listing(Err(P4Error::Process("connect failed".to_string()))) {
        ChildrenStep::Done(Err(P4Error::Process(m))) => assert_eq!(m, "connect failed"),
        _ => panic!("expected to stop with the error"),
    }
    let dirs = vec![TreeNode::new_directory("b".to_string(), "//d/b".to_string())];
    match after_files_listing(dirs, Err(P4Error::Process("connect failed".to_string()))) {
        Err(P4Error::Process(m)) => assert_eq!(m, "connect failed"),
        _ => panic!("expected the error, directories dropped"),
    }
    let dirs = vec![TreeNode::new_directory("b".to_string(), "//d/b".to_string())];
    let only_dirs = after_files_listing(dirs, Err(P4Error::Process("no such file(s)".to_string()))).unwrap();
    assert_eq!(only_dirs.len(), 1);
}
