use std::collections::HashSet;

use probe::query::{create_term_patterns, is_english_stop_word, preprocess_query, regex_escape};

#[test]
fn test_grouped_patterns() {
    // Test with "ip" and "whitelisting"
    let term_pairs = vec![
        ("ip".to_string(), "ip".to_string()),
        ("whitelisting".to_string(), "whitelist".to_string()),
    ];

    let patterns = create_term_patterns(&term_pairs);

    // Print the patterns for inspection
    println!("Generated patterns:");
    for (pattern, indices) in &patterns {
        println!("Pattern: {:?}, Indices: {:?}", pattern, indices);
    }

    // Verify we have the expected number of patterns
    // 1 pattern for each term (with combined boundaries) + 2 patterns for combinations
    // (one for each order of terms)
    assert_eq!(patterns.len(), 4);

    // Verify the first pattern is for "ip" with both boundaries
    let ip_pattern = patterns
        .iter()
        .find(|(_, indices)| indices.len() == 1 && indices.contains(&0));
    assert!(ip_pattern.is_some());
    let (ip_pattern, _) = ip_pattern.unwrap();
    assert!(ip_pattern.contains("\\bip|ip\\b"));

    // Verify the second pattern is for "whitelisting|whitelist" with both boundaries
    let whitelist_pattern = patterns
        .iter()
        .find(|(_, indices)| indices.len() == 1 && indices.contains(&1));
    assert!(whitelist_pattern.is_some());
    let (whitelist_pattern, _) = whitelist_pattern.unwrap();
    assert!(whitelist_pattern.contains("(whitelisting|whitelist)"));

    // Verify there are combination patterns
    let combo_patterns: Vec<_> = patterns
        .iter()
        .filter(|(_, indices)| indices.len() == 2)
        .collect();
    assert_eq!(combo_patterns.len(), 2);

    // Check that one combination has "ipwhitelisting|ipwhitelist"
    let has_ip_first = combo_patterns.iter().any(|(pattern, _)| {
        pattern.contains("ipwhitelisting") && pattern.contains("ipwhitelist")
    });
    assert!(has_ip_first);

    // Check that one combination has "whitelistingip|whitelistip"
    let has_whitelist_first = combo_patterns.iter().any(|(pattern, _)| {
        pattern.contains("whitelistingip") && pattern.contains("whitelistip")
    });
    assert!(has_whitelist_first);
}

#[test]
fn test_regex_escape_exact() {
    assert_eq!(regex_escape("a.b*c"), "a\\.b\\*c");
    assert_eq!(regex_escape("plain"), "plain");
    assert_eq!(
        regex_escape(".^$*+?()[]{}|\\"),
        "\\.\\^\\$\\*\\+\\?\\(\\)\\[\\]\\{\\}\\|\\\\"
    );
}

#[test]
fn test_preprocess_exact_mode() {
    // Exact mode lowercases, splits on whitespace, and skips stemming.
    let pairs = preprocess_query("Connections  Open", true);
    assert_eq!(
        pairs,
        vec![
            ("connections".to_string(), "connections".to_string()),
            ("open".to_string(), "open".to_string()),
        ]
    );
}

#[test]
fn test_preprocess_stems_and_drops_stop_words() {
    let pairs = preprocess_query("the whitelisting", false);
    assert_eq!(
        pairs,
        vec![("whitelisting".to_string(), "whitelist".to_string())]
    );
}

#[test]
fn test_preprocess_digit_boundary() {
    let originals: Vec<String> = preprocess_query("utf8", false)
        .into_iter()
        .map(|p| p.0)
        .collect();
    assert_eq!(originals, vec!["utf".to_string(), "8".to_string()]);
}

#[test]
fn test_preprocess_idempotent_under_lowercasing() {
    // Re-lowercasing the query does not change the produced pairs, and no
    // pair member is empty.
    let q = "IP Whitelisting Rules";
    let once = preprocess_query(q, false);
    let again = preprocess_query(&q.to_lowercase(), false);
    assert_eq!(once, again);
    assert!(!once.is_empty());
    for (o, s) in &once {
        assert!(!o.is_empty());
        assert!(!s.is_empty());
    }
}

#[test]
fn test_preprocess_lowercases_non_ascii() {
    let pairs = preprocess_query("\u{dc}BER", false);
    assert_eq!(pairs.len(), 1);
    assert_eq!(pairs[0].0, "\u{fc}ber");
}

#[test]
fn test_stop_words() {
    assert!(is_english_stop_word("the"));
    assert!(is_english_stop_word("with"));
    assert!(!is_english_stop_word("whitelist"));
}

#[test]
fn test_single_pattern_matches_both_forms() {
    // The single-term pattern matches the original and the stemmed form at a
    // word boundary.
    let term_pairs = vec![("whitelisting".to_string(), "whitelist".to_string())];
    let patterns = create_term_patterns(&term_pairs);
    assert_eq!(patterns.len(), 1);
    let re = regex::Regex::new(&patterns[0].0).unwrap();
    assert!(re.is_match("whitelisting"));
    assert!(re.is_match("whitelist"));
    assert!(re.is_match("a whitelisting b"));
}

#[test]
fn test_compound_patterns_match_glued_identifiers() {
    // For the query "ip whitelisting" the pattern set matches identifiers
    // that glue the two terms together, in either order.
    let pairs = preprocess_query("ip whitelisting", false);
    let patterns = create_term_patterns(&pairs);
    let regexes: Vec<regex::Regex> = patterns
        .iter()
        .map(|(p, _)| regex::Regex::new(p).unwrap())
        .collect();
    for target in ["ipwhitelisting", "ipwhitelist", "whitelistingip", "whitelistip"] {
        assert!(
            regexes.iter().any(|re| re.is_match(target)),
            "no pattern matched {}",
            target
        );
    }
}

#[test]
fn test_exact_mode_excludes_singular() {
    // With exact matching, "connections" must not match "connection".
    let pairs = preprocess_query("connections", true);
    let patterns = create_term_patterns(&pairs);
    assert_eq!(patterns.len(), 1);
    let re = regex::Regex::new(&patterns[0].0).unwrap();
    assert!(re.is_match("connections"));
    assert!(!re.is_match("connection "));
    assert!(!re.is_match(" connection"));
}

#[test]
fn test_pattern_indices_are_term_positions() {
    let term_pairs = vec![
        ("alpha".to_string(), "alpha".to_string()),
        ("beta".to_string(), "beta".to_string()),
        ("gamma".to_string(), "gamma".to_string()),
    ];
    let patterns = create_term_patterns(&term_pairs);
    // 3 single-term patterns plus 6 ordered pairs of distinct indices.
    assert_eq!(patterns.len(), 9);
    let singles: Vec<&HashSet<usize>> = patterns
        .iter()
        .filter(|(_, s)| s.len() == 1)
        .map(|(_, s)| s)
        .collect();
    assert_eq!(singles.len(), 3);
    for i in 0..3 {
        assert!(singles.iter().any(|s| s.contains(&i)));
    }
    let compounds: Vec<&(String, HashSet<usize>)> =
        patterns.iter().filter(|(_, s)| s.len() == 2).collect();
    assert_eq!(compounds.len(), 6);
    // A same-index combination never appears.
    for (_, s) in &patterns {
        assert!(s.len() == 1 || s.len() == 2);
    }
}

#[test]
fn test_camel_identifier_end_to_end() {
    // Query terms at identifier edges and glued into identifiers are found,
    // expanded to their enclosing functions, and cover both term indices.
    let source = "fn ip_whitelist_rules() {\n    let x = 1;\n    let y = x;\n}\n\nfn ipWhitelistingConfig() {\n    let z = 2;\n}\n";
    let pairs = preprocess_query("ip whitelisting", false);
    let patterns = create_term_patterns(&pairs);
    let compiled: Vec<(regex::Regex, Vec<usize>)> = patterns
        .iter()
        .map(|(p, s)| (regex::Regex::new(p).unwrap(), s.iter().cloned().collect()))
        .collect();

    let mut matched_lines: HashSet<usize> = HashSet::new();
    let mut matched_terms: HashSet<usize> = HashSet::new();
    for (lineno, line) in source.lines().enumerate() {
        let lower = line.to_lowercase();
        for (re, terms) in &compiled {
            if re.is_match(&lower) {
                matched_lines.insert(lineno + 1);
                matched_terms.extend(terms.iter().cloned());
            }
        }
    }
    assert!(matched_lines.contains(&1));
    assert!(matched_lines.contains(&6));
    assert_eq!(matched_terms, HashSet::from([0, 1]));

    let blocks =
        probe::parse::parse_file_for_code_blocks(source, "rs", &matched_lines).unwrap();
    assert_eq!(blocks.len(), 2);
    assert!(blocks.iter().all(|b| b.node_type == "function_item"));
    assert_eq!(blocks[0].start_row, 0);
    assert_eq!(blocks[1].start_row, 5);
}

#[test]
fn test_preprocess_splits_acronym_before_lowercasing() {
    // Camel boundaries are taken on the original-cased word; the parts are
    // lowercased afterwards.
    let pairs = preprocess_query("HTTPServer", false);
    assert_eq!(
        pairs,
        vec![
            ("http".to_string(), "http".to_string()),
            ("server".to_string(), "server".to_string()),
        ]
    );
}

#[test]
fn test_preprocess_splits_lower_to_upper() {
    let pairs = preprocess_query("ipWhitelisting", false);
    assert_eq!(
        pairs,
        vec![
            ("ip".to_string(), "ip".to_string()),
            ("whitelisting".to_string(), "whitelist".to_string()),
        ]
    );
}
