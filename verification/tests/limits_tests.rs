use probe::limits::{apply_limits, RankedBlock};
use probe::models::CodeBlock;
use probe::path_resolver::strip_path_prefix;
use probe::test_filter::is_test_path;

fn ranked(content: &str) -> RankedBlock {
    RankedBlock {
        file_path: "src/lib.rs".to_string(),
        block: CodeBlock {
            start_row: 0,
            end_row: 1,
            start_byte: 0,
            end_byte: content.len(),
            node_type: "function_item".to_string(),
        },
        content: content.to_string(),
        matched_terms: vec![0],
    }
}

#[test]
fn test_max_results_truncates() {
    let blocks = vec![ranked("aaaa"), ranked("bbbb"), ranked("cccc")];
    let (kept, truncated) = apply_limits(blocks, Some(2), None, None);
    assert_eq!(kept.len(), 2);
    assert_eq!(kept[0].content, "aaaa");
    assert_eq!(kept[1].content, "bbbb");
    assert!(truncated.results);
    assert!(!truncated.bytes);
    assert!(!truncated.tokens);
}

#[test]
fn test_byte_budget_skips_and_continues() {
    // The second block exceeds what is left, but the smaller third one fits.
    let blocks = vec![ranked("aaaaaaaa"), ranked("bbbbbbbb"), ranked("cc")];
    let (kept, truncated) = apply_limits(blocks, None, Some(10), None);
    assert_eq!(kept.len(), 2);
    assert_eq!(kept[0].content, "aaaaaaaa");
    assert_eq!(kept[1].content, "cc");
    assert!(truncated.bytes);
    assert!(!truncated.results);
}

#[test]
fn test_token_budget_rounds_up() {
    // 5 characters estimate to 2 tokens; a budget of 1 token drops the block.
    let blocks = vec![ranked("aaaaa")];
    let (kept, truncated) = apply_limits(blocks, None, None, Some(1));
    assert_eq!(kept.len(), 0);
    assert!(truncated.tokens);

    let blocks = vec![ranked("aaaa")];
    let (kept, truncated) = apply_limits(blocks, None, None, Some(1));
    assert_eq!(kept.len(), 1);
    assert!(!truncated.tokens);
}

#[test]
fn test_limits_respected_together() {
    let blocks = vec![ranked("aaaa"), ranked("bbbb"), ranked("cccc"), ranked("dddd")];
    let (kept, truncated) = apply_limits(blocks, Some(3), Some(8), Some(100));
    // Result cut to 3, then the byte budget keeps only the first two.
    assert_eq!(kept.len(), 2);
    let total: usize = kept.iter().map(|b| b.content.len()).sum();
    assert!(total <= 8);
    assert!(truncated.results);
    assert!(truncated.bytes);
    assert!(!truncated.tokens);
}

#[test]
fn test_no_limits_keeps_all() {
    let blocks = vec![ranked("aaaa"), ranked("bbbb")];
    let (kept, truncated) = apply_limits(blocks, None, None, None);
    assert_eq!(kept.len(), 2);
    assert!(!truncated.results && !truncated.bytes && !truncated.tokens);
}

#[test]
fn test_strip_path_prefix() {
    assert_eq!(
        strip_path_prefix("go:github.com/user/repo", "go:"),
        Some("github.com/user/repo".to_string())
    );
    assert_eq!(strip_path_prefix("go:", "go:"), Some("".to_string()));
    assert_eq!(strip_path_prefix("/some/regular/path", "go:"), None);
    assert_eq!(strip_path_prefix("js", "js:"), None);
}

#[test]
fn test_is_test_path() {
    assert!(is_test_path("src/foo_test.rs"));
    assert!(is_test_path("src/foo.test.js"));
    assert!(is_test_path("src/foo.spec.ts"));
    assert!(is_test_path("pkg/test_helpers.py"));
    assert!(is_test_path("a/tests/foo.rs"));
    assert!(is_test_path("tests/foo.rs"));
    assert!(is_test_path("a/__tests__/foo.js"));
    assert!(!is_test_path("src/foo.rs"));
    assert!(!is_test_path("src/contest.rs"));
    assert!(!is_test_path("src/latest/attestation.rs"));
}
