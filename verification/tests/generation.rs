use canvas_detective::canvas_generation::{
    generate_canvas_file_content, generate_id, generate_label, generate_multiple_canvas_nodes,
    generate_single_canvas_node, CanvasNode,
};
use canvas_detective::issue_parsing::{Issue, IssueFile};

fn issue(number: u16, watson: &str, severity: &str, title: &str) -> Issue {
    Issue {
        issue_number: number,
        watson: watson.to_string(),
        severity: severity.to_string(),
        title: title.to_string(),
    }
}

#[test]
fn it_should_generate_issue_label() {
    let input_issue = issue(1, "John Doe", "medium", "This is a medium severity bug");

    let generated_label = generate_label(&input_issue);

    let expected_label = r#"001 - This is a medium severity bug"#;

    assert_eq!(generated_label, expected_label);
}

#[test]
fn it_should_generate_unique_id() {
    let label = r#"001 - This is a medium severity bug"#;
    let generated_id = generate_id(label);

    let expected_id = r#"1426e27891c91000"#;

    assert_eq!(generated_id, expected_id);
}

#[test]
fn it_should_generate_single_canvas_node() {
    let input_issue = issue(1, "John Doe", "medium", "This is a medium severity bug");

    let generated_canvas_node = generate_single_canvas_node(&input_issue);

    let expected_result = CanvasNode {
        node_type: "text".to_string(),
        text: "001 - This is a medium severity bug".to_string(),
        id: "1426e27891c91000".to_string(),
        x: 0,
        y: 0,
        width: 300,
        height: 150,
    };

    assert_eq!(generated_canvas_node, expected_result);
}

#[test]
fn it_should_space_out_multiple_nodes() {
    let issue1 = issue(1, "John Doe", "medium", "This is a medium severity bug");
    let issue2 = issue(2, "John Doe", "medium", "This is a medium severity bug");
    let issue3 = issue(3, "John Doe", "medium", "This is a medium severity bug");

    let generated_canvas_node1 = generate_single_canvas_node(&issue1);
    let generated_canvas_node2 = generate_single_canvas_node(&issue2);
    let generated_canvas_node3 = generate_single_canvas_node(&issue3);

    let expected_result1 = CanvasNode {
        node_type: "text".to_string(),
        text: "001 - This is a medium severity bug".to_string(),
        id: "1426e27891c91000".to_string(),
        x: 0,
        y: 0,
        width: 300,
        height: 150,
    };

    let expected_result2 = CanvasNode {
        node_type: "text".to_string(),
        text: "002 - This is a medium severity bug".to_string(),
        id: "0b9b5099b5b2bc17".to_string(),
        x: 360,
        y: 0,
        width: 300,
        height: 150,
    };

    let expected_result3 = CanvasNode {
        node_type: "text".to_string(),
        text: "003 - This is a medium severity bug".to_string(),
        id: "83eb17f90d7e7a32".to_string(),
        x: 720,
        y: 0,
        width: 300,
        height: 150,
    };

    assert_eq!(generated_canvas_node1, expected_result1);
    assert_eq!(generated_canvas_node2, expected_result2);
    assert_eq!(generated_canvas_node3, expected_result3);
}

#[test]
fn it_should_generate_multiple_canvas_nodes() {
    let issues = vec![
        issue(1, "John Doe", "medium", "This is a medium severity bug"),
        issue(2, "John Doe", "medium", "This is a medium severity bug"),
        issue(3, "John Doe", "medium", "This is a medium severity bug"),
    ];

    let generated_canvas_nodes = generate_multiple_canvas_nodes(&issues);
    let expected_result = vec![
        CanvasNode {
            node_type: "text".to_string(),
            text: "001 - This is a medium severity bug".to_string(),
            id: "1426e27891c91000".to_string(),
            x: 0,
            y: 0,
            width: 300,
            height: 150,
        },
        CanvasNode {
            node_type: "text".to_string(),
            text: "002 - This is a medium severity bug".to_string(),
            id: "0b9b5099b5b2bc17".to_string(),
            x: 360,
            y: 0,
            width: 300,
            height: 150,
        },
        CanvasNode {
            node_type: "text".to_string(),
            text: "003 - This is a medium severity bug".to_string(),
            id: "83eb17f90d7e7a32".to_string(),
            x: 720,
            y: 0,
            width: 300,
            height: 150,
        },
    ];

    assert_eq!(generated_canvas_nodes, expected_result);
}

fn issue_file(path: &str, stem: &str, content: &str) -> IssueFile {
    IssueFile {
        path: path.to_string(),
        stem: Some(stem.to_string()),
        content: Ok(content.to_string()),
    }
}

#[test]
fn it_should_generate_canvas_file_content_given_directory() {
    let path_to_directory = "tests/test_data/directory_of_issues";
    let files = vec![
        issue_file(
            "tests/test_data/directory_of_issues/001.md",
            "001",
            "John Doe\n\nmedium\n\n# This is a medium severity bug\n",
        ),
        issue_file(
            "tests/test_data/directory_of_issues/002.md",
            "002",
            "Jane Doe\n\nhigh\n\n# This is a high severity bug\n",
        ),
        issue_file(
            "tests/test_data/directory_of_issues/003.md",
            "003",
            "John Doe\n\nmedium\n\n# This is a medium severity bug\n",
        ),
    ];

    let generated_canvas_file_content =
        generate_canvas_file_content(path_to_directory, &files).unwrap();

    let expected_result = r#"{
  "nodes": [
    {
      "type": "text",
      "text": "001 - This is a medium severity bug",
      "id": "1426e27891c91000",
      "x": 0,
      "y": 0,
      "width": 300,
      "height": 150
    },
    {
      "type": "text",
      "text": "002 - This is a high severity bug",
      "id": "d0a3d2eee544e0b5",
      "x": 360,
      "y": 0,
      "width": 300,
      "height": 150
    },
    {
      "type": "text",
      "text": "003 - This is a medium severity bug",
      "id": "83eb17f90d7e7a32",
      "x": 720,
      "y": 0,
      "width": 300,
      "height": 150
    }
  ],
  "edges": []
}"#;

    // Normalize whitespace by deleting it
    let generated_normalized = generated_canvas_file_content.replace(char::is_whitespace, "");
    let expected_normalized = expected_result.replace(char::is_whitespace, "");

    assert_eq!(generated_normalized, expected_normalized);
}

#[test]
fn label_pads_small_numbers_and_keeps_large_ones() {
    assert_eq!(
        generate_label(&issue(12, "a", "low", "Twelve")),
        "012 - Twelve"
    );
    assert_eq!(
        generate_label(&issue(999, "a", "low", "Edge")),
        "999 - Edge"
    );
    assert_eq!(
        generate_label(&issue(1000, "a", "low", "Big")),
        "1000 - Big"
    );
    assert_eq!(
        generate_label(&issue(65535, "a", "low", "Max")),
        "65535 - Max"
    );
}

#[test]
fn identical_labels_get_identical_ids() {
    let a = generate_id("042 - Same text");
    let b = generate_id("042 - Same text");
    assert_eq!(a, b);
    assert_eq!(a.len(), 16);
    assert!(a.chars().all(|c| c.is_ascii_hexdigit() && !c.is_ascii_uppercase()));
}

#[test]
fn grid_wraps_after_twenty_columns() {
    let n20 = generate_single_canvas_node(&issue(20, "a", "low", "t"));
    let n21 = generate_single_canvas_node(&issue(21, "a", "low", "t"));
    let n22 = generate_single_canvas_node(&issue(22, "a", "low", "t"));
    assert_eq!((n20.x, n20.y), (19 * 360, 0));
    assert_eq!((n21.x, n21.y), (0, 300));
    assert_eq!((n22.x, n22.y), (360, 300));
}

#[test]
fn canvas_document_is_valid_json_with_expected_shape() {
    let files = vec![issue_file(
        "d/007.md",
        "007",
        "Jane Doe\n\nhigh\n\n#   Quote \" and backslash \\ in title \n",
    )];
    let content = generate_canvas_file_content("d", &files).unwrap();

    let value: serde_json::Value = serde_json::from_str(&content).unwrap();
    let nodes = value.get("nodes").unwrap().as_array().unwrap();
    assert_eq!(nodes.len(), 1);
    let node = &nodes[0];
    assert_eq!(node.get("type").unwrap().as_str().unwrap(), "text");
    assert_eq!(
        node.get("text").unwrap().as_str().unwrap(),
        "007 - Quote \" and backslash \\ in title"
    );
    assert_eq!(node.get("id").unwrap().as_str().unwrap().len(), 16);
    assert_eq!(node.get("x").unwrap().as_u64().unwrap(), 6 * 360);
    assert_eq!(node.get("y").unwrap().as_u64().unwrap(), 0);
    assert_eq!(node.get("width").unwrap().as_u64().unwrap(), 300);
    assert_eq!(node.get("height").unwrap().as_u64().unwrap(), 150);
    let edges = value.get("edges").unwrap().as_array().unwrap();
    assert!(edges.is_empty());
}

#[test]
fn empty_directory_gives_empty_canvas() {
    let files: Vec<IssueFile> = vec![];
    let content = generate_canvas_file_content("d", &files).unwrap();
    let value: serde_json::Value = serde_json::from_str(&content).unwrap();
    assert!(value.get("nodes").unwrap().as_array().unwrap().is_empty());
    assert!(value.get("edges").unwrap().as_array().unwrap().is_empty());
}
