use axon::executor::Directory;
use axon::executor::Execution;
use axon::executor::RenameMethod;
use axon::executor::invert_plans;
use axon::executor::refactor_directory;
use axon::executor::resolve_method;
use axon::executor::run_batch;
use axon::journal::journal_to_string;
use axon::journal::parse_journal;
use axon::planner::RenamePlan;

fn plan(from: &str, to: &str) -> RenamePlan {
    RenamePlan { from: from.to_string(), to: to.to_string() }
}

fn sorted_list(dir: &Directory) -> Vec<String> {
    let mut names = dir.file_list();
    names.sort();
    names
}

#[test]
fn test_execution_failure_splits_batch() {
    // a three-entry batch whose second entry fails: the rollback
    // journal holds entry one, the retry journal entries two and three
    let plans = vec![plan("a", "b"), plan("c", "d"), plan("e", "f")];
    let mut ex = Execution::new(plans);
    assert_eq!(ex.current().unwrap().from, "a");
    ex.record_success();
    assert_eq!(ex.current().unwrap().from, "c");
    ex.record_failure("disk full".to_string());
    assert!(ex.current().is_none());
    assert!(!ex.is_complete());
    assert_eq!(ex.applied_count(), 1);
    assert_eq!(ex.failure_message().unwrap(), "disk full");
    let rollback = ex.applied_plans();
    assert_eq!(rollback.len(), 1);
    assert_eq!(rollback[0].from, "a");
    assert_eq!(rollback[0].to, "b");
    let retry = ex.remaining_plans();
    assert_eq!(retry.len(), 2);
    assert_eq!(retry[0].from, "c");
    assert_eq!(retry[1].from, "e");
}

#[test]
fn test_run_batch_stops_at_first_failure() {
    let dir_names = vec!["a".to_string(), "e".to_string()];
    let mut dir = Directory::new(dir_names);
    // entry two fails: its source is missing
    let plans = vec![plan("a", "b"), plan("c", "d"), plan("e", "f")];
    let ex = run_batch(&mut dir, &plans);
    assert!(!ex.is_complete());
    assert_eq!(ex.applied_count(), 1);
    assert_eq!(ex.applied_plans().len(), 1);
    assert_eq!(ex.remaining_plans().len(), 2);
    // only the first entry touched the directory
    assert_eq!(sorted_list(&dir), vec!["b".to_string(), "e".to_string()]);
}

#[test]
fn test_retry_after_fixing_failure() {
    // the earlier failed suffix, replayed once the cause is fixed
    let mut dir = Directory::new(vec!["b".to_string(), "c".to_string(), "e".to_string()]);
    let retry = vec![plan("c", "d"), plan("e", "f")];
    let ex = run_batch(&mut dir, &retry);
    assert!(ex.is_complete());
    // the new rollback journal is the retry batch, not the old prefix
    let rollback = ex.applied_plans();
    assert_eq!(rollback.len(), 2);
    assert_eq!(rollback[0].from, "c");
    assert_eq!(rollback[1].from, "e");
    assert_eq!(sorted_list(&dir), vec!["b".to_string(), "d".to_string(), "f".to_string()]);
}

#[test]
fn test_rollback_reverses_order_and_direction() {
    // rollback of a successful two-entry batch applies (d,c) then (b,a)
    let batch = vec![plan("a", "b"), plan("c", "d")];
    let inverse = invert_plans(&batch);
    assert_eq!(inverse.len(), 2);
    assert_eq!(inverse[0].from, "d");
    assert_eq!(inverse[0].to, "c");
    assert_eq!(inverse[1].from, "b");
    assert_eq!(inverse[1].to, "a");
    let mut dir = Directory::new(vec!["b".to_string(), "d".to_string()]);
    let ex = run_batch(&mut dir, &inverse);
    assert!(ex.is_complete());
    assert_eq!(sorted_list(&dir), vec!["a".to_string(), "c".to_string()]);
}

#[test]
fn test_batch_then_rollback_restores_names() {
    let original = vec![
        "a.feat.x.v1.md".to_string(),
        "a.feat.y.v1.md".to_string(),
        "README.md".to_string(),
    ];
    let mut dir = Directory::new(original.clone());
    let batch = vec![
        plan("a.feat.x.v1.md", "a.x.v1.md"),
        plan("a.feat.y.v1.md", "a.y.v1.md"),
    ];
    let forward = run_batch(&mut dir, &batch);
    assert!(forward.is_complete());
    let backward = run_batch(&mut dir, &invert_plans(&batch));
    assert!(backward.is_complete());
    let mut expected = original;
    expected.sort();
    assert_eq!(sorted_list(&dir), expected);
}

#[test]
fn test_refactor_directory_conflict_changes_nothing() {
    // both candidates map to one destination: the plan is rejected and
    // the directory is untouched
    let names = vec!["a.b.v1.md".to_string(), "a.c.v1.md".to_string()];
    let mut dir = Directory::new(names.clone());
    let result = refactor_directory(&mut dir, "{r}.{x}.v{N}", "{r}.v{N}", false);
    assert!(result.is_err());
    let mut expected = names;
    expected.sort();
    assert_eq!(sorted_list(&dir), expected);
}

#[test]
fn test_refactor_directory_applies_batch() {
    let mut dir = Directory::new(vec!["a.feat.x.v1.md".to_string()]);
    let result = refactor_directory(&mut dir, "{r}.feat.{x}.v{N}", "{r}.{x}.v{N}", false);
    let ex = result.unwrap();
    assert!(ex.is_complete());
    assert_eq!(sorted_list(&dir), vec!["a.x.v1.md".to_string()]);
}

#[test]
fn test_resolve_method_rules() {
    assert_eq!(resolve_method(true, false, true).unwrap(), RenameMethod::Git);
    let err = resolve_method(true, false, false).unwrap_err();
    assert_eq!(err.code, 5);
    assert!(err.message.contains("Not in a git repository"));
    assert_eq!(resolve_method(false, true, true).unwrap(), RenameMethod::Fs);
    assert_eq!(resolve_method(false, false, true).unwrap(), RenameMethod::Git);
    assert_eq!(resolve_method(false, false, false).unwrap(), RenameMethod::Fs);
}

#[test]
fn test_journal_round_trip() {
    let plans = vec![plan("a.feat.x.v1.md", "a.x.v1.md"), plan("b.md", "c.md")];
    let text = journal_to_string(&plans).unwrap();
    assert_eq!(text, "a.feat.x.v1.md\na.x.v1.md\nb.md\nc.md\n");
    let back = parse_journal(&text).unwrap();
    assert_eq!(back.len(), 2);
    assert_eq!(back[0].from, "a.feat.x.v1.md");
    assert_eq!(back[0].to, "a.x.v1.md");
    assert_eq!(back[1].from, "b.md");
    assert_eq!(back[1].to, "c.md");
}

#[test]
fn test_journal_refuses_line_breaks() {
    // a name holding a line break cannot be represented losslessly in
    // the line-based format, so writing such a batch is refused
    let plans = vec![plan("odd\nname.md", "b.md")];
    assert!(journal_to_string(&plans).is_none());
}

#[test]
fn test_journal_rejects_torn_text() {
    assert!(parse_journal("only-one-line\n").is_none());
    assert!(parse_journal("a\nb\nc").is_none());
    let empty = parse_journal("").unwrap();
    assert!(empty.is_empty());
}

#[test]
fn test_cli_error_new() {
    let err = axon::error::CliError::new(4, "partial failure".to_string());
    assert_eq!(err.code, 4);
    assert_eq!(err.message, "partial failure");
}
