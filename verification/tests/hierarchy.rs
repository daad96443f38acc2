use psd_great::io::hierarchy::{build_layer_hierarchy, flatten_layer_tree, LayerNode};
use psd_great::types::SectionDividerType;

fn leaf(index: usize) -> LayerNode {
    LayerNode { index, opened: None, children: None }
}

#[test]
fn test_build_layer_hierarchy_keeps_folder_marker_as_group() {
    // Records bottom-up: bounding divider, "Leaf", closed marker "Group".
    let kinds = vec![
        SectionDividerType::BoundingSectionDivider,
        SectionDividerType::Other,
        SectionDividerType::ClosedFolder,
    ];
    let roots = build_layer_hierarchy(&kinds).expect("build hierarchy");
    assert_eq!(roots.len(), 1);
    // The folder marker's own record is the public group.
    assert_eq!(roots[0].index, 2);
    assert_eq!(roots[0].opened, Some(false));
    let children = roots[0].children.as_ref().expect("group children");
    assert_eq!(children.first().map(|c| c.index), Some(1));
}

#[test]
fn test_build_layer_hierarchy_preserves_empty_group() {
    let kinds = vec![SectionDividerType::BoundingSectionDivider, SectionDividerType::OpenFolder];
    let roots = build_layer_hierarchy(&kinds).expect("build hierarchy");
    assert_eq!(roots.len(), 1);
    assert_eq!(roots[0].children.as_ref(), Some(&Vec::new()));
    assert_eq!(roots[0].opened, Some(true));
}

#[test]
fn test_build_layer_hierarchy_rejects_unbalanced_markers() {
    let kinds = vec![SectionDividerType::OpenFolder];
    let err = build_layer_hierarchy(&kinds).unwrap_err();
    assert!(err.to_string().contains("never closed"), "unexpected error: {}", err.to_string());
    assert_eq!(
        err.to_string(),
        "Invalid format: Unbalanced folder markers: 1 folder(s) never closed"
    );
}

#[test]
fn hierarchy_rejects_bounding_divider_without_folder() {
    let kinds = vec![SectionDividerType::Other, SectionDividerType::BoundingSectionDivider];
    let err = build_layer_hierarchy(&kinds).unwrap_err();
    assert_eq!(
        err.to_string(),
        "Invalid format: Bounding section divider without an open folder"
    );
}

#[test]
fn hierarchy_of_plain_layers_keeps_file_order() {
    let kinds = vec![SectionDividerType::Other, SectionDividerType::Other, SectionDividerType::Other];
    let roots = build_layer_hierarchy(&kinds).unwrap();
    assert_eq!(roots, vec![leaf(0), leaf(1), leaf(2)]);
}

#[test]
fn hierarchy_nests_groups_and_drops_dividers() {
    // bottom-up: [0] layer, [1] bounding, [2] layer, [3] bounding, [4] layer,
    // [5] inner open folder, [6] outer closed folder, [7] top layer
    let kinds = vec![
        SectionDividerType::Other,
        SectionDividerType::BoundingSectionDivider,
        SectionDividerType::Other,
        SectionDividerType::BoundingSectionDivider,
        SectionDividerType::Other,
        SectionDividerType::OpenFolder,
        SectionDividerType::ClosedFolder,
        SectionDividerType::Other,
    ];
    let roots = build_layer_hierarchy(&kinds).unwrap();
    let inner = LayerNode { index: 5, opened: Some(true), children: Some(vec![leaf(4)]) };
    let outer = LayerNode { index: 6, opened: Some(false), children: Some(vec![leaf(2), inner]) };
    assert_eq!(roots, vec![leaf(0), outer, leaf(7)]);
}

#[test]
fn hierarchy_counts_every_unclosed_folder() {
    let kinds = vec![SectionDividerType::OpenFolder, SectionDividerType::ClosedFolder];
    let err = build_layer_hierarchy(&kinds).unwrap_err();
    assert_eq!(
        err.to_string(),
        "Invalid format: Unbalanced folder markers: 2 folder(s) never closed"
    );
}

#[test]
fn hierarchy_of_no_layers_is_empty() {
    let roots = build_layer_hierarchy(&Vec::new()).unwrap();
    assert!(roots.is_empty());
}

#[test]
fn flattening_the_built_tree_gives_the_records_back() {
    let kinds = vec![
        SectionDividerType::Other,
        SectionDividerType::BoundingSectionDivider,
        SectionDividerType::Other,
        SectionDividerType::BoundingSectionDivider,
        SectionDividerType::Other,
        SectionDividerType::OpenFolder,
        SectionDividerType::ClosedFolder,
        SectionDividerType::Other,
    ];
    let roots = build_layer_hierarchy(&kinds).unwrap();
    let flat = flatten_layer_tree(&roots);
    let expected: Vec<(Option<usize>, SectionDividerType)> = kinds
        .iter()
        .enumerate()
        .map(|(i, k)| {
            if *k == SectionDividerType::BoundingSectionDivider {
                (None, *k)
            } else {
                (Some(i), *k)
            }
        })
        .collect();
    assert_eq!(flat, expected);
}

#[test]
fn group_without_open_state_is_written_open() {
    let group = LayerNode { index: 3, opened: None, children: Some(vec![leaf(1)]) };
    let flat = flatten_layer_tree(&vec![group]);
    assert_eq!(
        flat,
        vec![
            (None, SectionDividerType::BoundingSectionDivider),
            (Some(1), SectionDividerType::Other),
            (Some(3), SectionDividerType::OpenFolder),
        ]
    );
}
