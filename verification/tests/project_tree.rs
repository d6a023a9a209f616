use rune_project::project_tree::{InstanceId, InstanceNode, ProjectTree, ProjectTreeError};

fn fixture() -> ProjectTree {
    let mut workspace = InstanceNode::new(InstanceId::new(2), "Workspace", "Workspace");

    workspace.add_child(InstanceNode::new(InstanceId::new(3), "Camera", "Camera"));

    let mut root = InstanceNode::new(InstanceId::new(1), "Game", "DataModel");
    root.add_child(workspace);
    root.add_child(InstanceNode::new(
        InstanceId::new(4),
        "ReplicatedStorage",
        "ReplicatedStorage",
    ));

    ProjectTree::try_new(root).expect("fixture should be valid")
}

#[test]
fn preserves_depth_first_child_order() {
    let tree = fixture();

    assert_eq!(
        tree.depth_first_ids(),
        vec![
            InstanceId::new(1),
            InstanceId::new(2),
            InstanceId::new(3),
            InstanceId::new(4),
        ]
    );
}

#[test]
fn finds_instanced_by_id() {
    let tree = fixture();

    let camera = tree.find(InstanceId::new(3));
    assert_eq!(camera.map(InstanceNode::name), Some("Camera"));
    assert_eq!(camera.map(InstanceNode::class_name), Some("Camera"));
    assert!(tree.find(InstanceId::new(99)).is_none());
}

#[test]
fn allows_duplicate_names_when_ids_are_unique() {
    let mut root = InstanceNode::new(InstanceId::new(1), "Game", "DataModel");

    root.add_child(InstanceNode::new(InstanceId::new(2), "Folder", "Folder"));
    root.add_child(InstanceNode::new(InstanceId::new(3), "Folder", "Folder"));

    assert!(ProjectTree::try_new(root).is_ok());
}

#[test]
fn rejects_duplicate_instance_ids() {
    let mut root = InstanceNode::new(InstanceId::new(1), "Game", "DataModel");

    root.add_child(InstanceNode::new(InstanceId::new(2), "First", "Folder"));
    root.add_child(InstanceNode::new(InstanceId::new(2), "Second", "Folder"));

    assert_eq!(
        ProjectTree::try_new(root),
        Err(ProjectTreeError::DuplicateInstanceId(InstanceId::new(2)))
    );
}

#[test]
fn instance_id_keeps_its_value() {
    assert_eq!(InstanceId::new(42).value(), 42);
    assert_eq!(InstanceId::new(u64::MAX).value(), u64::MAX);
}

#[test]
fn node_accessors_return_what_was_given() {
    let mut node = InstanceNode::new(InstanceId::new(7), "Lighting", "Lighting");
    assert_eq!(node.id(), InstanceId::new(7));
    assert_eq!(node.name(), "Lighting");
    assert_eq!(node.class_name(), "Lighting");
    assert!(node.children().is_empty());
    node.add_child(InstanceNode::new(InstanceId::new(8), "Sky", "Sky"));
    assert_eq!(node.children().len(), 1);
    assert_eq!(node.children()[0].name(), "Sky");
    assert_eq!(node.depth_first_ids(), vec![InstanceId::new(7), InstanceId::new(8)]);
}

#[test]
fn find_returns_the_first_match_in_depth_first_order() {
    // Without the uniqueness check a subtree can hold an id twice; the
    // first one in depth-first order is found.
    let mut first = InstanceNode::new(InstanceId::new(5), "First", "Folder");
    first.add_child(InstanceNode::new(InstanceId::new(6), "Deep", "Part"));
    let mut root = InstanceNode::new(InstanceId::new(1), "Game", "DataModel");
    root.add_child(first);
    root.add_child(InstanceNode::new(InstanceId::new(6), "Shallow", "Part"));
    assert_eq!(root.find(InstanceId::new(6)).map(InstanceNode::name), Some("Deep"));
    assert_eq!(root.find(InstanceId::new(1)).map(InstanceNode::name), Some("Game"));
    assert!(root.find(InstanceId::new(2)).is_none());
}

#[test]
fn first_repeated_id_in_depth_first_order_is_reported() {
    let mut a = InstanceNode::new(InstanceId::new(2), "A", "Folder");
    a.add_child(InstanceNode::new(InstanceId::new(3), "A1", "Folder"));
    a.add_child(InstanceNode::new(InstanceId::new(4), "A2", "Folder"));
    let mut root = InstanceNode::new(InstanceId::new(1), "Game", "DataModel");
    root.add_child(a);
    root.add_child(InstanceNode::new(InstanceId::new(4), "B", "Folder"));
    root.add_child(InstanceNode::new(InstanceId::new(3), "C", "Folder"));
    assert_eq!(
        ProjectTree::try_new(root),
        Err(ProjectTreeError::DuplicateInstanceId(InstanceId::new(4)))
    );
}

#[test]
fn root_id_repeated_is_reported() {
    let mut root = InstanceNode::new(InstanceId::new(9), "Game", "DataModel");
    root.add_child(InstanceNode::new(InstanceId::new(9), "Again", "Folder"));
    assert_eq!(
        ProjectTree::try_new(root),
        Err(ProjectTreeError::DuplicateInstanceId(InstanceId::new(9)))
    );
}

#[test]
fn tree_root_is_the_given_node() {
    let tree = fixture();
    assert_eq!(tree.root().name(), "Game");
    assert_eq!(tree.root().class_name(), "DataModel");
    assert_eq!(tree.root().children().len(), 2);
}

#[test]
fn duplicate_id_message() {
    assert_eq!(
        ProjectTreeError::DuplicateInstanceId(InstanceId::new(2)).message(),
        "duplicate instance id: 2"
    );
    assert_eq!(
        ProjectTreeError::DuplicateInstanceId(InstanceId::new(0)).message(),
        "duplicate instance id: 0"
    );
    assert_eq!(
        ProjectTreeError::DuplicateInstanceId(InstanceId::new(1203)).message(),
        "duplicate instance id: 1203"
    );
    assert_eq!(
        ProjectTreeError::DuplicateInstanceId(InstanceId::new(u64::MAX)).message(),
        "duplicate instance id: 18446744073709551615"
    );
}

#[test]
fn clones_are_equal_copies() {
    let tree = fixture();
    let copy = tree.clone();
    assert_eq!(copy, tree);
    assert_eq!(copy.depth_first_ids(), tree.depth_first_ids());
    let node = tree.root().clone();
    assert_eq!(&node, tree.root());
    assert_eq!(node.children()[0].children()[0].name(), "Camera");
}
