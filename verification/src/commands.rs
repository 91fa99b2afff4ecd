//! The command surfaces: the plain argument records each subcommand
//! takes, and the decision logic the commands run over directory
//! listings — classifying names against the convention and filtering
//! parsed names. Reading the directory and printing stay outside the
//! library.

use vstd::prelude::*;

use crate::pattern::ParsedFilename;
use crate::pattern::is_feat_name;
use crate::pattern::is_sop_name;
use crate::planner::strings_view;
use crate::text::str_eq;

verus! {

/// Arguments of the convention health check.
#[derive(Debug)]
pub struct HealthArgs {
    /// Treat exempt files as errors.
    pub strict: bool,
    /// Output as structured text.
    pub json: bool,
    /// Only output errors.
    pub quiet: bool,
}

/// Arguments of the listing command.
#[derive(Debug)]
pub struct ListArgs {
    pub repo: Option<String>,
    pub category: Option<String>,
    pub feature: Option<String>,
    pub doc_type: Option<String>,
    pub variant: Option<String>,
    pub name: Option<String>,
    pub json: bool,
}

/// Arguments of the single-name parser.
#[derive(Debug)]
pub struct ParseArgs {
    pub filename: String,
    pub json: bool,
}

/// Arguments of the batch rename command.
#[derive(Debug)]
pub struct RefactorArgs {
    /// Source pattern.
    pub from: Option<String>,
    /// Target pattern.
    pub to: Option<String>,
    /// Show what would be renamed and exit.
    pub dry_run: bool,
    /// Skip the confirmation prompt.
    pub yes: bool,
    /// Rename through the version-control tool.
    pub git: bool,
    /// Rename through the plain filesystem even in a working tree.
    pub no_git: bool,
    /// Overwrite existing files.
    pub force: bool,
    /// Retry previously failed renames.
    pub retry: bool,
    /// Roll back the last batch.
    pub rollback: bool,
}

/// Arguments of the statistics command.
#[derive(Debug)]
pub struct StatsArgs {
    pub json: bool,
}

/// Arguments of the single-name validator.
#[derive(Debug)]
pub struct ValidateArgs {
    pub filename: String,
}

/// A name exempt from the convention.
pub open spec fn is_exempt_name(s: Seq<char>) -> bool {
    s == "README.md"@ || s == "prompts.md"@ || s == ".gitignore"@ || s == ".DS_Store"@
}

/// A name that follows the convention.
pub open spec fn is_conventional(s: Seq<char>) -> bool {
    is_feat_name(s) || is_sop_name(s)
}

/// The exempt names of a listing, in order.
pub open spec fn exempt_of(names: Seq<String>) -> Seq<Seq<char>>
    decreases names.len(),
{
    if names.len() == 0 {
        Seq::empty()
    } else {
        let pre = exempt_of(names.drop_last());
        if is_exempt_name(names.last()@) {
            pre.push(names.last()@)
        } else {
            pre
        }
    }
}

/// The names that break the convention, exempt names aside, in order.
pub open spec fn invalid_of(names: Seq<String>) -> Seq<Seq<char>>
    decreases names.len(),
{
    if names.len() == 0 {
        Seq::empty()
    } else {
        let pre = invalid_of(names.drop_last());
        if !is_exempt_name(names.last()@) && !is_conventional(names.last()@) {
            pre.push(names.last()@)
        } else {
            pre
        }
    }
}

/// How many names follow the convention, exempt names aside.
pub open spec fn valid_count_of(names: Seq<String>) -> int
    decreases names.len(),
{
    if names.len() == 0 {
        0
    } else {
        valid_count_of(names.drop_last()) + (if !is_exempt_name(names.last()@)
            && is_conventional(names.last()@) {
            1int
        } else {
            0int
        })
    }
}

/// A directory listing classified against the convention.
#[derive(Debug)]
pub struct HealthReport {
    pub valid: usize,
    pub invalid_files: Vec<String>,
    pub exempt_files: Vec<String>,
}

/// Classifies a batch of names: exempt names are set aside, the rest
/// either follow one of the canonical grammars or are reported.
pub fn health_classify(names: &Vec<String>) -> (r: HealthReport)
    ensures
        r.valid == valid_count_of(names@),
        strings_view(r.invalid_files@) == invalid_of(names@),
        strings_view(r.exempt_files@) == exempt_of(names@),
{
    let n: usize = names.len();
    let mut valid: usize = 0;
    let mut invalid_files: Vec<String> = Vec::new();
    let mut exempt_files: Vec<String> = Vec::new();
    let mut i: usize = 0;
    while i < n
        invariant
            n == names@.len(),
            i <= n,
            valid == valid_count_of(names@.take(i as int)),
            valid <= i,
            strings_view(invalid_files@) =~= invalid_of(names@.take(i as int)),
            strings_view(exempt_files@) =~= exempt_of(names@.take(i as int)),
        decreases n - i,
    {
        proof {
            assert(names@.take(i + 1).drop_last() =~= names@.take(i as int));
            assert(names@.take(i + 1).last() == names@[i as int]);
        }
        let exempt = crate::pattern::exempt_reason(names[i].as_str()).is_some();
        proof {
            assert(exempt == is_exempt_name(names@[i as int]@));
        }
        if exempt {
            let ghost before = exempt_files@;
            exempt_files.push(names[i].clone());
            proof {
                assert(exempt_files@.drop_last() =~= before);
            }
        } else if crate::pattern::is_valid_filename(names[i].as_str()) {
            valid = valid + 1;
        } else {
            let ghost before = invalid_files@;
            invalid_files.push(names[i].clone());
            proof {
                assert(invalid_files@.drop_last() =~= before);
            }
        }
        proof {
            assert(strings_view(invalid_files@) =~= invalid_of(names@.take(i + 1)));
            assert(strings_view(exempt_files@) =~= exempt_of(names@.take(i + 1)));
        }
        i = i + 1;
    }
    proof {
        assert(names@.take(n as int) =~= names@);
    }
    HealthReport { valid, invalid_files, exempt_files }
}

/// An optional filter matches a field when absent or equal.
pub open spec fn opt_matches(filter: Option<String>, v: Seq<char>) -> bool {
    match filter {
        Option::Some(s) => s@ == v,
        Option::None => true,
    }
}

/// Whether a filter is absent or equals the field.
fn opt_eq(filter: &Option<String>, v: &str) -> (r: bool)
    ensures
        r == opt_matches(*filter, v@),
{
    match filter {
        Option::Some(s) => str_eq(s.as_str(), v),
        Option::None => true,
    }
}

/// Whether a parsed name passes the listing filters: every present
/// filter must equal its field, and a filter specific to the other
/// grammar excludes the name.
pub fn list_filter_matches(parsed: &ParsedFilename, args: &ListArgs) -> (r: bool)
    ensures
        r == match parsed {
            ParsedFilename::Feat(f) => opt_matches(args.repo, f.repo@) && opt_matches(
                args.category,
                "feat"@,
            ) && opt_matches(args.feature, f.feature@) && opt_matches(args.doc_type, f.doc_type@)
                && opt_matches(args.variant, f.variant@) && args.name is None,
            ParsedFilename::Sop(s) => opt_matches(args.repo, s.repo@) && opt_matches(
                args.category,
                "sop"@,
            ) && opt_matches(args.name, s.name@) && args.feature is None && args.doc_type is None
                && args.variant is None,
        },
{
    match parsed {
        ParsedFilename::Feat(f) => opt_eq(&args.repo, f.repo.as_str()) && opt_eq(
            &args.category,
            "feat",
        ) && opt_eq(&args.feature, f.feature.as_str()) && opt_eq(&args.doc_type, f.doc_type.as_str())
            && opt_eq(&args.variant, f.variant.as_str()) && args.name.is_none(),
        ParsedFilename::Sop(s) => opt_eq(&args.repo, s.repo.as_str()) && opt_eq(
            &args.category,
            "sop",
        ) && opt_eq(&args.name, s.name.as_str()) && args.feature.is_none() && args.doc_type.is_none()
            && args.variant.is_none(),
    }
}

} // verus!
