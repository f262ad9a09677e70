use canvas_detective::cli::Args;
use canvas_detective::issue_parsing::{parse_directory, parse_markdown_file, Issue, IssueFile};
use canvas_detective::text::parse_u16;

fn issue_file(path: &str, stem: &str, content: &str) -> IssueFile {
    IssueFile {
        path: path.to_string(),
        stem: Some(stem.to_string()),
        content: Ok(content.to_string()),
    }
}

#[test]
fn it_should_parse_single_issue() {
    let file = issue_file(
        "tests/test_data/001.md",
        "001",
        "John Doe\n\nmedium\n\n# This is a medium severity bug\n",
    );

    let parsing_result: Issue = parse_markdown_file(&file).unwrap();

    let expected_result = Issue {
        issue_number: 1,
        watson: "John Doe".to_string(),
        severity: "medium".to_string(),
        title: "This is a medium severity bug".to_string(),
    };

    assert_eq!(parsing_result, expected_result);
}

#[test]
fn it_should_parse_directory() {
    let files = vec![
        issue_file(
            "tests/test_data/directory_of_issues/001.md",
            "001",
            "John Doe\n\nmedium\n\n# This is a medium severity bug\n",
        ),
        issue_file(
            "tests/test_data/directory_of_issues/002.md",
            "002",
            "Jane Doe\n\nhigh\n\n# This is a high severity bug\n",
        ),
        issue_file(
            "tests/test_data/directory_of_issues/003.md",
            "003",
            "John Doe\n\nmedium\n\n# This is a medium severity bug\n",
        ),
    ];

    let parsing_result: Vec<Issue> = parse_directory(&files).unwrap();

    let expected_result = vec![
        Issue {
            issue_number: 1,
            watson: "John Doe".to_string(),
            severity: "medium".to_string(),
            title: "This is a medium severity bug".to_string(),
        },
        Issue {
            issue_number: 2,
            watson: "Jane Doe".to_string(),
            severity: "high".to_string(),
            title: "This is a high severity bug".to_string(),
        },
        Issue {
            issue_number: 3,
            watson: "John Doe".to_string(),
            severity: "medium".to_string(),
            title: "This is a medium severity bug".to_string(),
        },
    ];

    assert_eq!(parsing_result, expected_result);
}

fn entry(n: u8) -> IssueFile {
    match n {
        1 => issue_file("d/001.md", "001", "John Doe\n\nmedium\n\n# First\n"),
        2 => issue_file("d/002.md", "002", "Jane Doe\n\nhigh\n\n# Second\n"),
        _ => issue_file("d/003.md", "003", "John Doe\n\nlow\n\n# Third\n"),
    }
}

#[test]
fn parsing_ignores_listing_order() {
    let sorted = parse_directory(&vec![entry(1), entry(2), entry(3)]).unwrap();
    let shuffled1 = parse_directory(&vec![entry(3), entry(1), entry(2)]).unwrap();
    let shuffled2 = parse_directory(&vec![entry(2), entry(3), entry(1)]).unwrap();

    assert_eq!(sorted, shuffled1);
    assert_eq!(sorted, shuffled2);
    let numbers: Vec<u16> = sorted.iter().map(|i| i.issue_number).collect();
    assert_eq!(numbers, vec![1, 2, 3]);
}

#[test]
fn non_numeric_stem_surfaces_a_file_error_naming_the_path() {
    let files = vec![
        issue_file("d/001.md", "001", "John Doe\n\nmedium\n\n# Fine\n"),
        issue_file("d/abc.md", "abc", "John Doe\n\nmedium\n\n# Bad name\n"),
    ];
    let err = parse_directory(&files).unwrap_err();
    assert!(err.contains("d/abc.md"), "error was: {err}");
    assert!(err.contains("Error while parsing markdown file"), "error was: {err}");
}

#[test]
fn short_or_empty_file_surfaces_a_file_error() {
    let empty = vec![issue_file("d/001.md", "001", "")];
    let err = parse_directory(&empty).unwrap_err();
    assert!(err.contains("d/001.md"), "error was: {err}");
    assert!(err.contains("fewer than 5 lines"), "error was: {err}");

    let three_lines = vec![issue_file("d/002.md", "002", "John Doe\n\nmedium\n")];
    let err = parse_directory(&three_lines).unwrap_err();
    assert!(err.contains("d/002.md"), "error was: {err}");
    assert!(err.contains("fewer than 5 lines"), "error was: {err}");
}

#[test]
fn unreadable_file_error_wraps_the_read_cause() {
    let files = vec![IssueFile {
        path: "d/001.md".to_string(),
        stem: Some("001".to_string()),
        content: Err("stream did not contain valid UTF-8".to_string()),
    }];
    let err = parse_directory(&files).unwrap_err();
    assert_eq!(
        err,
        "Error while parsing markdown file `d/001.md`: \
         Error while reading file content to string: stream did not contain valid UTF-8"
    );
}

#[test]
fn issue_number_zero_is_rejected() {
    let files = vec![issue_file("d/000.md", "000", "John Doe\n\nmedium\n\n# Zero\n")];
    let err = parse_directory(&files).unwrap_err();
    assert!(err.contains("d/000.md"), "error was: {err}");
    assert!(err.contains("at least 1"), "error was: {err}");
}

#[test]
fn missing_stem_is_rejected() {
    let files = vec![IssueFile {
        path: "d/..".to_string(),
        stem: None,
        content: Ok("John Doe\n\nmedium\n\n# No stem\n".to_string()),
    }];
    let err = parse_directory(&files).unwrap_err();
    assert!(err.contains("not a valid issue number"), "error was: {err}");
}

#[test]
fn stem_parsing_matches_std() {
    assert_eq!(parse_u16("0"), Some(0));
    assert_eq!(parse_u16("007"), Some(7));
    assert_eq!(parse_u16("+12"), Some(12));
    assert_eq!(parse_u16("65535"), Some(65535));
    assert_eq!(parse_u16("65536"), None);
    assert_eq!(parse_u16("99999"), None);
    assert_eq!(parse_u16(""), None);
    assert_eq!(parse_u16("+"), None);
    assert_eq!(parse_u16("-1"), None);
    assert_eq!(parse_u16("1 2"), None);
    assert_eq!(parse_u16("abc"), None);
    assert_eq!("+12".parse::<u16>().ok(), parse_u16("+12"));
    assert_eq!("65536".parse::<u16>().ok(), parse_u16("65536"));
}

#[test]
fn title_is_cleaned_of_heading_and_whitespace() {
    let file = issue_file(
        "d/004.md",
        "004",
        "John Doe\n\nlow\n\n###   Indented title with trailing space   \n",
    );
    let parsed = parse_markdown_file(&file).unwrap();
    assert_eq!(parsed.title, "Indented title with trailing space");
}

#[test]
fn carriage_return_line_endings_are_accepted() {
    let file = issue_file(
        "d/005.md",
        "005",
        "John Doe\r\n\r\nmedium\r\n\r\n# Windows file\r\n",
    );
    let parsed = parse_markdown_file(&file).unwrap();
    assert_eq!(parsed.watson, "John Doe");
    assert_eq!(parsed.severity, "medium");
    assert_eq!(parsed.title, "Windows file");
}

#[test]
fn args_keep_their_paths() {
    let args = Args::new("in_dir".to_string(), "out.canvas".to_string()).unwrap();
    assert_eq!(args.input_path, "in_dir");
    assert_eq!(args.output_path, "out.canvas");
}
