use std::collections::HashSet;

use probe::language::{merge_code_blocks, merge_code_blocks_with_threshold};
use probe::models::CodeBlock;
use probe::parse::{get_language, is_acceptable_parent, parse_file_for_code_blocks, Lang};

fn block(start_row: usize, end_row: usize, start_byte: usize, end_byte: usize, node_type: &str) -> CodeBlock {
    CodeBlock {
        start_row,
        end_row,
        start_byte,
        end_byte,
        node_type: node_type.to_string(),
    }
}

#[test]
fn test_get_language() {
    // Test supported languages
    assert!(get_language("rs").is_some());  // Rust
    assert!(get_language("js").is_some());  // JavaScript
    assert!(get_language("ts").is_some());  // TypeScript
    assert!(get_language("py").is_some());  // Python
    assert!(get_language("go").is_some());  // Go
    assert!(get_language("c").is_some());   // C
    assert!(get_language("cpp").is_some()); // C++
    assert!(get_language("java").is_some()); // Java
    assert!(get_language("rb").is_some());  // Ruby
    assert!(get_language("php").is_some()); // PHP

    // Test unsupported language
    assert!(get_language("txt").is_none());
    assert!(get_language("").is_none());
}

#[test]
fn test_is_acceptable_parent() {
    // This is more of an integration test for the language module
    let rust_code = r#"
fn test_function() {
    println!("Hello, world!");
}

struct TestStruct {
    field1: i32,
    field2: String,
}

impl TestStruct {
    fn new() -> Self {
        Self {
            field1: 0,
            field2: String::new(),
        }
    }
}
"#;

    let mut line_numbers = HashSet::new();
    line_numbers.insert(3);  // Line in test_function
    line_numbers.insert(12); // Line in TestStruct::new

    // This may fail in a pure unit test environment where tree-sitter is not properly initialized
    // We'll handle the potential failure gracefully
    let result = parse_file_for_code_blocks(rust_code, "rs", &line_numbers);

    if let Ok(blocks) = result {
        // If parsing succeeded, verify we got the expected blocks
        assert!(!blocks.is_empty());

        // Check if we found function blocks
        let has_function = blocks.iter().any(|block|
            block.node_type == "function_item" ||
            block.node_type == "impl_item"
        );

        assert!(has_function);
    }
    // If parsing failed, that's acceptable in a unit test environment
}

#[test]
fn test_merge_code_blocks() {
    // Create some test blocks
    let blocks = vec![
        block(1, 5, 10, 50, "function_item"),
        block(7, 12, 60, 100, "function_item"),
        // Overlapping block
        block(4, 8, 45, 65, "function_item"),
    ];

    let merged = merge_code_blocks(blocks);

    // The three blocks should be merged into one or two blocks
    assert!(merged.len() < 3);

    // Check that the merged block covers the full range
    let full_coverage = merged.iter().any(|block|
        block.start_row <= 1 && block.end_row >= 12
    );

    assert!(full_coverage);
}

#[test]
fn test_merge_code_blocks_no_overlap() {
    // Create blocks with no overlap
    let blocks = vec![
        block(1, 5, 10, 50, "function_item"),
        block(20, 25, 200, 250, "function_item"),
    ];

    let merged = merge_code_blocks(blocks.clone());

    // No blocks should be merged
    assert_eq!(merged.len(), blocks.len());
}

#[test]
fn test_merge_code_blocks_struct_type() {
    // Create blocks with struct_type (which uses a larger merge threshold)
    let blocks = vec![
        block(1, 10, 10, 100, "struct_type"),
        // This is far enough away that normal blocks wouldn't merge,
        // but struct_type has a larger threshold
        block(25, 35, 200, 300, "struct_type"),
    ];

    let merged = merge_code_blocks(blocks);

    // The blocks should be merged because of the larger threshold for struct_type
    assert_eq!(merged.len(), 1);

    // Check that the merged block covers the full range
    assert_eq!(merged[0].start_row, 1);
    assert_eq!(merged[0].end_row, 35);
}

#[test]
fn test_container_threshold_boundary() {
    // Two struct_type blocks exactly 20 rows apart merge...
    let merged = merge_code_blocks(vec![
        block(1, 5, 0, 50, "struct_type"),
        block(25, 28, 100, 150, "struct_type"),
    ]);
    assert_eq!(merged.len(), 1);
    assert_eq!(merged[0].start_row, 1);
    assert_eq!(merged[0].end_row, 28);
    assert_eq!(merged[0].node_type, "struct_type");

    // ...while two function_item blocks 10 rows apart do not.
    let separate = merge_code_blocks(vec![
        block(1, 4, 0, 40, "function_item"),
        block(15, 18, 100, 140, "function_item"),
    ]);
    assert_eq!(separate.len(), 2);
}

#[test]
fn test_merge_idempotent() {
    let blocks = vec![
        block(9, 12, 90, 120, "function_item"),
        block(1, 4, 0, 40, "function_item"),
        block(5, 6, 45, 60, "function_item"),
        block(40, 44, 400, 440, "function_item"),
    ];
    let once = merge_code_blocks(blocks);
    let twice = merge_code_blocks(once.clone());
    assert_eq!(once.len(), twice.len());
    for (a, b) in once.iter().zip(twice.iter()) {
        assert_eq!(a.start_row, b.start_row);
        assert_eq!(a.end_row, b.end_row);
        assert_eq!(a.start_byte, b.start_byte);
        assert_eq!(a.end_byte, b.end_byte);
        assert_eq!(a.node_type, b.node_type);
    }
}

#[test]
fn test_merge_custom_threshold() {
    // With a base threshold of 10, a gap of 10 rows merges.
    let merged = merge_code_blocks_with_threshold(
        vec![
            block(1, 4, 0, 40, "function_item"),
            block(14, 18, 100, 140, "function_item"),
        ],
        10,
    );
    assert_eq!(merged.len(), 1);
    assert_eq!(merged[0].start_row, 1);
    assert_eq!(merged[0].end_row, 18);
}

#[test]
fn test_merge_sorts_and_covers() {
    let merged = merge_code_blocks(vec![
        block(50, 55, 500, 550, "function_item"),
        block(1, 4, 0, 40, "function_item"),
    ]);
    assert_eq!(merged.len(), 2);
    assert_eq!(merged[0].start_row, 1);
    assert_eq!(merged[1].start_row, 50);
}

#[test]
fn test_acceptable_parent_kinds() {
    assert!(is_acceptable_parent(Lang::Rust, "function_item"));
    assert!(is_acceptable_parent(Lang::Rust, "impl_item"));
    assert!(!is_acceptable_parent(Lang::Rust, "block"));
    assert!(is_acceptable_parent(Lang::Go, "type_declaration"));
    assert!(is_acceptable_parent(Lang::Python, "class_definition"));
    assert!(!is_acceptable_parent(Lang::Python, "expression_statement"));
}

#[test]
fn test_parse_two_functions_then_merge() {
    let code = "fn parse_header(x: u8) -> u8 {\n    x + 1\n}\n\n\n\nfn parse_body(y: u8) -> u8 {\n    y + 2\n}\n";
    let mut lines = HashSet::new();
    lines.insert(2); // inside parse_header
    lines.insert(8); // inside parse_body
    let blocks = parse_file_for_code_blocks(code, "rs", &lines).unwrap();
    assert_eq!(blocks.len(), 2);
    assert!(blocks.iter().all(|b| b.node_type == "function_item"));

    // With the default threshold of 5 the small gap merges them into one.
    let merged = merge_code_blocks(blocks);
    assert_eq!(merged.len(), 1);
    assert_eq!(merged[0].start_row, 0);
    assert_eq!(merged[0].end_row, 8);
}

#[test]
fn test_parse_unsupported_extension() {
    let mut lines = HashSet::new();
    lines.insert(1);
    let result = parse_file_for_code_blocks("hello", "txt", &lines);
    assert!(matches!(
        result,
        Err(probe::parse::BlockError::UnsupportedLanguage)
    ));
}

#[test]
fn test_parse_python_function() {
    let code = "def f():\n    return 1\n\nclass C:\n    def m(self):\n        return 2\n";
    let mut lines = HashSet::new();
    lines.insert(2); // inside f
    let blocks = parse_file_for_code_blocks(code, "py", &lines).unwrap();
    assert_eq!(blocks.len(), 1);
    assert_eq!(blocks[0].node_type, "function_definition");
    assert_eq!(blocks[0].start_row, 0);
    assert_eq!(blocks[0].end_row, 1);
}

#[test]
fn test_parse_structs_merge_under_container_threshold() {
    // Two one-line structs separated by 18 blank lines: too far for the base
    // threshold, close enough for the container threshold.
    let mut code = String::new();
    code.push_str("struct ConfigA {}\n");
    for _ in 0..18 {
        code.push('\n');
    }
    code.push_str("struct ConfigB {}\n");
    let mut lines = HashSet::new();
    lines.insert(1);
    lines.insert(20);
    let blocks = parse_file_for_code_blocks(&code, "rs", &lines).unwrap();
    assert_eq!(blocks.len(), 2);
    assert!(blocks.iter().all(|b| b.node_type == "struct_item"));
    let merged = merge_code_blocks(blocks);
    assert_eq!(merged.len(), 1);
    assert_eq!(merged[0].start_row, 0);
    assert_eq!(merged[0].end_row, 19);
}
