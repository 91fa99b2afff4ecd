use axon::config::Config;
use axon::config::glob_match;
use axon::notes::daily_filename;
use axon::notes::filter_note_names;
use axon::notes::monthly_filename;
use axon::notes::note_filename;
use axon::notes::scratch_filename;
use axon::notes::weekly_filename;

#[test]
fn test_glob_match_star_suffix() {
    assert!(glob_match("daily.*", "daily.2026.02.17.md"));
}

#[test]
fn test_glob_match_star_prefix() {
    assert!(glob_match("*.md", "daily.2026.02.17.md"));
}

#[test]
fn test_glob_match_star_middle() {
    assert!(glob_match("daily.*.md", "daily.2026.02.17.md"));
}

#[test]
fn test_glob_match_exact() {
    assert!(glob_match("daily.md", "daily.md"));
    assert!(!glob_match("daily.md", "daily.txt"));
}

#[test]
fn test_glob_match_no_match() {
    assert!(!glob_match("weekly.*", "daily.2026.02.17.md"));
}

#[test]
fn test_glob_match_two_stars() {
    assert!(glob_match("a*b*c", "aXbYc"));
    assert!(glob_match("a*b*c", "abc"));
    assert!(!glob_match("a*b*c", "acb"));
}

#[test]
fn test_resolve_schema_first_match() {
    let cfg = Config {
        schemas: vec![
            ("daily.*".to_string(), "schema.daily".to_string()),
            ("*.md".to_string(), "schema.any".to_string()),
        ],
    };
    assert_eq!(cfg.resolve_schema("daily.2026.02.17.md").unwrap(), "schema.daily");
    assert_eq!(cfg.resolve_schema("weekly.2026.02.17.md").unwrap(), "schema.any");
    assert!(cfg.resolve_schema("notes.txt").is_none());
}

#[test]
fn test_config_default_empty() {
    let cfg = Config::default();
    assert!(cfg.schemas.is_empty());
}

#[test]
fn test_periodic_filenames() {
    assert_eq!(daily_filename(2026, 2, 17), "daily.2026.02.17.md");
    assert_eq!(weekly_filename(2026, 2, 9), "weekly.2026.02.09.md");
    assert_eq!(monthly_filename(2026, 2), "monthly.2026.02.md");
    assert_eq!(scratch_filename(1760000000), "scratch.1760000000.md");
}

#[test]
fn test_note_filename_suffix() {
    assert_eq!(note_filename("ideas"), "ideas.md");
    assert_eq!(note_filename("ideas.md"), "ideas.md");
}

#[test]
fn test_filter_note_names() {
    let names = vec![
        "daily.2026.02.17.md".to_string(),
        "schema.daily".to_string(),
        "schema.weekly.md".to_string(),
        "notes.txt".to_string(),
        "ideas.md".to_string(),
    ];
    let kept = filter_note_names(&names);
    assert_eq!(kept, vec!["daily.2026.02.17.md".to_string(), "ideas.md".to_string()]);
}
