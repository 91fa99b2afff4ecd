use axon::planner::check_existing_targets;
use axon::planner::check_for_duplicates;
use axon::planner::match_files;
use axon::planner::refactor_filename;
use axon::planner::validate_placeholder_match;
use axon::template::parse_refactor_pattern;

fn owned(names: &[&str]) -> Vec<String> {
    names.iter().map(|n| n.to_string()).collect()
}

#[test]
fn test_refactor_pattern() {
    let result = refactor_filename(
        "forkcast.objections.specs.initial.v1.md",
        "{repo}.{feature}.{type}.{variant}.v{N}",
        "{repo}.{type}.{feature}.{variant}.v{N}",
    );
    assert_eq!(result.unwrap(), "forkcast.specs.objections.initial.v1.md");
}

#[test]
fn test_refactor_pattern_invalid_syntax() {
    let result = parse_refactor_pattern("invalid[pattern");
    assert!(result.is_err());
    assert!(result.unwrap_err().message().contains("Unclosed bracket"));
}

#[test]
fn test_refactor_pattern_unclosed_placeholder() {
    let result = parse_refactor_pattern("{repo}.{feature");
    assert!(result.is_err());
    assert!(result.unwrap_err().message().contains("Unclosed placeholder"));
}

#[test]
fn test_refactor_pattern_empty_placeholder() {
    let result = parse_refactor_pattern("{}.{feature}.v{N}");
    assert!(result.is_err());
    assert!(result.unwrap_err().message().contains("Empty placeholder"));
}

#[test]
fn test_placeholder_mismatch_missing_in_target() {
    let result = validate_placeholder_match("{repo}.{feature}.{type}.v{N}", "{repo}.{type}.v{N}");
    assert!(result.is_err());
    let err = result.unwrap_err().message();
    assert!(err.contains("Missing in target: {feature}"));
}

#[test]
fn test_placeholder_mismatch_missing_in_source() {
    let result = validate_placeholder_match(
        "{repo}.{feature}.v{N}",
        "{repo}.{feature}.{type}.v{N}",
    );
    assert!(result.is_err());
    let err = result.unwrap_err().message();
    assert!(err.contains("Missing in source: {type}"));
}

#[test]
fn test_placeholder_match_valid() {
    let result = validate_placeholder_match(
        "{repo}.{feature}.{type}.{variant}.v{N}",
        "{repo}.{type}.{feature}.{variant}.v{N}",
    );
    assert!(result.is_ok());
}

#[test]
fn test_detect_duplicate_targets() {
    let files = owned(&[
        "forkcast.objections.specs.initial.v1.md",
        "forkcast.objections.specs.inline.v1.md",
    ]);
    let result = check_for_duplicates(
        &files,
        "{repo}.{feature}.{type}.{variant}.v{N}",
        "{repo}.{type}.v{N}",
    );
    assert!(result.is_err());
    let err = result.unwrap_err().message();
    assert!(err.contains("forkcast.specs.v1.md"));
    assert!(err.contains("would be created by"));
}

#[test]
fn test_no_duplicates_unique_targets() {
    let files = owned(&[
        "forkcast.objections.specs.initial.v1.md",
        "forkcast.dark-mode.specs.initial.v1.md",
    ]);
    let result = check_for_duplicates(
        &files,
        "{repo}.{feature}.{type}.{variant}.v{N}",
        "{repo}.{type}.{feature}.{variant}.v{N}",
    );
    assert!(result.is_ok());
}

#[test]
fn test_no_files_match_pattern() {
    let files = owned(&[
        "forkcast.objections.specs.initial.v1.md",
        "kittynode.tor.specs.initial.v1.md",
    ]);
    let result = match_files(&files, "{foo}.{bar}.v{N}");
    assert!(result.is_empty());
}

#[test]
fn test_partial_match() {
    let files = owned(&[
        "forkcast.objections.specs.initial.v1.md",
        "README.md",
        "prompts.md",
    ]);
    let result = match_files(&files, "{repo}.{feature}.{type}.{variant}.v{N}");
    assert_eq!(result.len(), 1);
    assert_eq!(result[0], "forkcast.objections.specs.initial.v1.md");
}

#[test]
fn test_target_exists() {
    let existing = owned(&["a.specs.b.c.v1.md"]);
    let renames = vec![("a.b.specs.c.v1.md".to_string(), "a.specs.b.c.v1.md".to_string())];
    let result = check_existing_targets(&renames, &existing);
    assert!(result.is_err());
    assert!(result.unwrap_err().message().contains("already exists"));
}
