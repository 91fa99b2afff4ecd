use axon::pattern::ParsedFilename;
use axon::pattern::is_valid_filename;
use axon::pattern::parse_filename;

#[test]
fn test_valid_pattern() {
    assert!(is_valid_filename("forkcast.feat.objections.specs.initial.v1.md"));
    assert!(is_valid_filename("kittynode.feat.tor.specs.initial.v3.md"));
    assert!(is_valid_filename("forkcast.feat.dark-mode-fix.specs.shadcn.v2.md"));
}

#[test]
fn test_invalid_pattern() {
    assert!(!is_valid_filename("README.md"));
    assert!(!is_valid_filename("prompts.md"));
    assert!(!is_valid_filename("bad-filename.md"));
    assert!(!is_valid_filename("missing.version.specs.initial.md"));
    assert!(!is_valid_filename("forkcast.objections.specs.initial.v1.md"));
}

#[test]
fn test_parse_filename() {
    let parsed = parse_filename("forkcast.feat.objections.specs.initial.v1.md").unwrap();
    match parsed {
        ParsedFilename::Feat(f) => {
            assert_eq!(f.repo, "forkcast");
            assert_eq!(f.feature, "objections");
            assert_eq!(f.doc_type, "specs");
            assert_eq!(f.variant, "initial");
            assert_eq!(f.version, 1);
        }
        ParsedFilename::Sop(_) => panic!("expected feat filename"),
    }
}

#[test]
fn test_parse_filename_sop() {
    let parsed = parse_filename("forkcast.sop.release.v2.md").unwrap();
    match parsed {
        ParsedFilename::Sop(s) => {
            assert_eq!(s.repo, "forkcast");
            assert_eq!(s.name, "release");
            assert_eq!(s.version, 2);
        }
        ParsedFilename::Feat(_) => panic!("expected sop filename"),
    }
}

#[test]
fn test_parse_filename_version_overflow() {
    let result = parse_filename("a.feat.b.c.d.v99999999999.md");
    assert_eq!(result.unwrap_err(), "Invalid version");
}

#[test]
fn test_parse_filename_invalid_message() {
    let err = parse_filename("README.md").unwrap_err();
    assert!(err.contains("does not match pattern"));
    assert!(err.contains("{repo}.feat.{feature}.{type}.{variant}.v{N}.md"));
    assert!(err.contains("{repo}.sop.{name}.v{N}.md"));
}

#[test]
fn test_parsed_accessors() {
    let feat = parse_filename("forkcast.feat.objections.specs.initial.v4.md").unwrap();
    assert_eq!(feat.repo(), "forkcast");
    assert_eq!(feat.category(), "feat");
    assert_eq!(feat.version(), 4);
    let sop = parse_filename("kittynode.sop.backup.v7.md").unwrap();
    assert_eq!(sop.repo(), "kittynode");
    assert_eq!(sop.category(), "sop");
    assert_eq!(sop.version(), 7);
}

#[test]
fn test_exempt_reason() {
    assert_eq!(axon::pattern::exempt_reason("README.md"), Some("documentation"));
    assert_eq!(axon::pattern::exempt_reason("prompts.md"), Some("documentation"));
    assert_eq!(axon::pattern::exempt_reason(".gitignore"), Some("system"));
    assert_eq!(axon::pattern::exempt_reason(".DS_Store"), Some("system"));
    assert_eq!(axon::pattern::exempt_reason("notes.md"), None);
}

#[test]
fn test_canonical_patterns() {
    assert_eq!(
        axon::pattern::canonical_pattern_feat(),
        "{repo}.feat.{feature}.{type}.{variant}.v{N}.md"
    );
    assert_eq!(axon::pattern::canonical_pattern_sop(), "{repo}.sop.{name}.v{N}.md");
    assert_eq!(
        axon::pattern::canonical_pattern(),
        "{repo}.feat.{feature}.{type}.{variant}.v{N}.md"
    );
    assert_eq!(
        axon::pattern::canonical_pattern_short(),
        "{repo}.feat.{feature}.{type}.{variant}.v{N}"
    );
}
