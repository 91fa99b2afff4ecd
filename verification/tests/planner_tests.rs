use axon::commands::HealthArgs;
use axon::commands::ListArgs;
use axon::commands::health_classify;
use axon::commands::list_filter_matches;
use axon::pattern::parse_filename;
use axon::planner::RefactorError;
use axon::planner::RenamePlan;
use axon::planner::build_rename_plans;
use axon::planner::check_for_duplicates;
use axon::planner::check_for_duplicates_in_plans;
use axon::planner::match_files;
use axon::planner::plan_refactor;
use axon::planner::refactor_filename;
use axon::template::RefactorPattern;

fn owned(names: &[&str]) -> Vec<String> {
    names.iter().map(|n| n.to_string()).collect()
}

#[test]
fn test_plan_single_file() {
    // one candidate, the feature marker dropped from its name
    let files = owned(&["a.feat.x.v1.md"]);
    let plans = plan_refactor(&files, "{r}.feat.{x}.v{N}", "{r}.{x}.v{N}", &files, false).unwrap();
    assert_eq!(plans.len(), 1);
    assert_eq!(plans[0].from, "a.feat.x.v1.md");
    assert_eq!(plans[0].to, "a.x.v1.md");
}

#[test]
fn test_plan_conflict_names_both_sources() {
    // two candidates both mapping to one destination
    let files = owned(&["a.b.v1.md", "a.c.v1.md"]);
    let err = check_for_duplicates(&files, "{r}.{x}.v{N}", "{r}.v{N}").unwrap_err();
    match err {
        RefactorError::DuplicateTargets { ref groups } => {
            assert_eq!(groups.len(), 1);
            assert_eq!(groups[0].target, "a.v1.md");
            assert_eq!(groups[0].sources, owned(&["a.b.v1.md", "a.c.v1.md"]));
        }
        _ => panic!("expected duplicate-target error"),
    }
    let message = err.message();
    assert!(message.contains("a.v1.md would be created by"));
    assert!(message.contains("- a.b.v1.md"));
    assert!(message.contains("- a.c.v1.md"));
}

#[test]
fn test_plan_reports_every_conflict_group() {
    // two separate groups of colliding destinations: both reported
    let plans = vec![
        RenamePlan { from: "a.b.v1.md".to_string(), to: "a.v1.md".to_string() },
        RenamePlan { from: "a.c.v1.md".to_string(), to: "a.v1.md".to_string() },
        RenamePlan { from: "z.b.v2.md".to_string(), to: "z.v2.md".to_string() },
        RenamePlan { from: "z.c.v2.md".to_string(), to: "z.v2.md".to_string() },
    ];
    let err = check_for_duplicates_in_plans(&plans).unwrap_err();
    match err {
        RefactorError::DuplicateTargets { groups } => {
            assert_eq!(groups.len(), 2);
            assert_eq!(groups[0].target, "a.v1.md");
            assert_eq!(groups[0].sources, owned(&["a.b.v1.md", "a.c.v1.md"]));
            assert_eq!(groups[1].target, "z.v2.md");
            assert_eq!(groups[1].sources, owned(&["z.b.v2.md", "z.c.v2.md"]));
        }
        _ => panic!("expected duplicate-target error"),
    }
}

#[test]
fn test_plan_rejects_existing_target() {
    let files = owned(&["a.b.specs.c.v1.md", "a.specs.b.c.v1.md"]);
    let err = plan_refactor(
        &files,
        "{repo}.{feature}.{type}.{variant}.v{N}",
        "{repo}.{type}.{feature}.{variant}.v{N}",
        &files,
        false,
    )
    .unwrap_err();
    match err {
        RefactorError::ExistingTargets { ref pairs } => {
            assert_eq!(pairs.len(), 2);
        }
        _ => panic!("expected existing-target error"),
    }
    assert!(err.message().contains("already exists"));
}

#[test]
fn test_plan_force_overrides_existing_target() {
    let files = owned(&["a.b.specs.c.v1.md"]);
    let existing = owned(&["a.b.specs.c.v1.md", "a.specs.b.c.v1.md"]);
    let plans = plan_refactor(
        &files,
        "{repo}.{feature}.{type}.{variant}.v{N}",
        "{repo}.{type}.{feature}.{variant}.v{N}",
        &existing,
        true,
    )
    .unwrap();
    assert_eq!(plans.len(), 1);
    assert_eq!(plans[0].to, "a.specs.b.c.v1.md");
}

#[test]
fn test_plan_empty_candidate_list() {
    // an empty candidate list yields an empty plan, not an error
    let files: Vec<String> = Vec::new();
    let plans = plan_refactor(&files, "{r}.{x}.v{N}", "{x}.{r}.v{N}", &files, false).unwrap();
    assert!(plans.is_empty());
}

#[test]
fn test_plan_excludes_noops() {
    // an entry whose source equals its destination is excluded
    let files = owned(&["a.b.v1.md"]);
    let plans = plan_refactor(&files, "{r}.{x}.v{N}", "{r}.{x}.v{N}", &files, false).unwrap();
    assert!(plans.is_empty());
}

#[test]
fn test_plan_mismatch_is_rejected() {
    let files = owned(&["a.b.v1.md"]);
    let err = plan_refactor(&files, "{r}.{x}.v{N}", "{r}.v{N}", &files, false).unwrap_err();
    assert!(matches!(err, RefactorError::PlaceholderMismatch { .. }));
    assert!(err.message().contains("Missing in target: {x}"));
}

#[test]
fn test_plan_syntax_error_positions() {
    let files = owned(&["a.md"]);
    let err = plan_refactor(&files, "a}b", "c", &files, false).unwrap_err();
    assert_eq!(err.message(), "Unopened placeholder at position 1");
    let err = plan_refactor(&files, "a{b{c}", "c", &files, false).unwrap_err();
    assert_eq!(err.message(), "Nested placeholder");
    let err = plan_refactor(&files, "a]b", "c", &files, false).unwrap_err();
    assert_eq!(err.message(), "Unopened bracket at position 1");
    let err = plan_refactor(&files, "{x}.{x}", "{x}", &files, false).unwrap_err();
    assert_eq!(err.message(), "Duplicate placeholder {x}");
}

#[test]
fn test_round_trip_through_both_patterns() {
    // a name captured by one pattern, rendered through the other and
    // back, is reproduced exactly
    let source = "{repo}.{feature}.{type}.{variant}.v{N}";
    let target = "{repo}.{type}.{feature}.{variant}.v{N}";
    let original = "forkcast.objections.specs.initial.v1.md";
    let there = refactor_filename(original, source, target).unwrap();
    assert_eq!(there, "forkcast.specs.objections.initial.v1.md");
    let back = refactor_filename(&there, target, source).unwrap();
    assert_eq!(back, original);
}

#[test]
fn test_round_trip_needs_separator_literals() {
    // with only hyphens between placeholders the decomposition is
    // ambiguous, and the round trip is not guaranteed: the greedy
    // matcher may split the rendered name differently
    let there = refactor_filename("x-y-z.md", "{a}-{b}", "{b}-{a}").unwrap();
    assert_eq!(there, "z-x-y.md");
    let back = refactor_filename(&there, "{b}-{a}", "{a}-{b}").unwrap();
    assert_ne!(back, "x-y-z.md");
    assert_eq!(back, "y-z-x.md");
}

#[test]
fn test_greedy_capture_prefers_longest_value() {
    // with a class character as the only separator, the earlier
    // placeholder takes the longest value that still matches
    let out = refactor_filename("axxb.md", "{a}x{b}", "{b}x{a}").unwrap();
    assert_eq!(out, "bxax.md");
}

#[test]
fn test_no_match_error() {
    let err = refactor_filename("README.md", "{r}.{x}.v{N}", "{x}.{r}.v{N}").unwrap_err();
    assert!(matches!(err, RefactorError::NoMatch));
    assert_eq!(err.message(), "Filename does not match source pattern");
}

#[test]
fn test_zero_placeholder_pattern_exact_match() {
    // a pattern without placeholders matches only its literal text
    let files = owned(&["abc.md", "abc.md.md", "xabc.md"]);
    let matched = match_files(&files, "abc");
    assert_eq!(matched, owned(&["abc.md"]));
}

#[test]
fn test_number_placeholder_class() {
    // the numeric field takes digits without a leading zero; slugs do
    // not accept an upper-case letter
    let files = owned(&["a.v12.md", "a.v0.md", "a.v01.md", "A.v2.md"]);
    let matched = match_files(&files, "{r}.v{N}");
    assert_eq!(matched, owned(&["a.v12.md"]));
}

#[test]
fn test_build_rename_plans_keeps_order() {
    let source = RefactorPattern::new("{r}.feat.{x}.v{N}").unwrap();
    let target = RefactorPattern::new("{r}.{x}.v{N}").unwrap();
    let files = owned(&["b.feat.y.v2.md", "README.md", "a.feat.x.v1.md"]);
    let plans = build_rename_plans(&files, &source, &target).unwrap();
    assert_eq!(plans.len(), 2);
    assert_eq!(plans[0].from, "b.feat.y.v2.md");
    assert_eq!(plans[0].to, "b.y.v2.md");
    assert_eq!(plans[1].from, "a.feat.x.v1.md");
    assert_eq!(plans[1].to, "a.x.v1.md");
}

#[test]
fn test_health_classify() {
    let names = owned(&[
        "forkcast.feat.objections.specs.initial.v1.md",
        "kittynode.sop.backup.v2.md",
        "README.md",
        "bad-filename.md",
    ]);
    let report = health_classify(&names);
    assert_eq!(report.valid, 2);
    assert_eq!(report.invalid_files, owned(&["bad-filename.md"]));
    assert_eq!(report.exempt_files, owned(&["README.md"]));
    let _unused = HealthArgs { strict: false, json: false, quiet: false };
}

#[test]
fn test_list_filter() {
    let feat = parse_filename("forkcast.feat.objections.specs.initial.v1.md").unwrap();
    let sop = parse_filename("forkcast.sop.release.v1.md").unwrap();
    let mut args = ListArgs {
        repo: None,
        category: None,
        feature: None,
        doc_type: None,
        variant: None,
        name: None,
        json: false,
    };
    assert!(list_filter_matches(&feat, &args));
    assert!(list_filter_matches(&sop, &args));
    args.repo = Some("forkcast".to_string());
    args.category = Some("feat".to_string());
    assert!(list_filter_matches(&feat, &args));
    assert!(!list_filter_matches(&sop, &args));
    args.category = None;
    args.name = Some("release".to_string());
    assert!(!list_filter_matches(&feat, &args));
    assert!(list_filter_matches(&sop, &args));
}
