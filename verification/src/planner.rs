//! The rename planner: cross-matches a source pattern against a batch
//! of candidate filenames, renders each match through a target
//! pattern, and validates the whole batch before anything is renamed.
//! Validation is all-or-nothing: every conflict found is reported, and
//! a batch with any conflict produces no plan at all.

use vstd::prelude::*;

use crate::matcher::PatternMatcher;
use crate::matcher::apply_pattern;
use crate::matcher::caps_match;
use crate::matcher::map_of;
use crate::matcher::render_spec;
use crate::template::PatternError;
use crate::template::RefactorPattern;
use crate::template::TokenView;
use crate::template::first_dup;
use crate::template::lemma_first_dup_none_iff_unique;
use crate::template::names_view;
use crate::template::normalize_spec;
use crate::template::ph_names;
use crate::template::tokenize;
use crate::template::unique_names;
use crate::text::str_eq;

verus! {

/// The views of a string list.
pub open spec fn strings_view(ss: Seq<String>) -> Seq<Seq<char>> {
    ss.map(|i: int, s: String| s@)
}

/// One proposed rename: two full filenames, no directory components.
#[derive(Debug)]
pub struct RenamePlan {
    pub from: String,
    pub to: String,
}

impl View for RenamePlan {
    type V = (Seq<char>, Seq<char>);

    open spec fn view(&self) -> (Seq<char>, Seq<char>) {
        (self.from@, self.to@)
    }
}

impl RenamePlan {
    /// A copy of this plan.
    pub fn duplicate(&self) -> (r: RenamePlan)
        ensures
            r@ == self@,
    {
        RenamePlan { from: self.from.clone(), to: self.to.clone() }
    }
}

/// The views of a plan list.
pub open spec fn plans_view(ps: Seq<RenamePlan>) -> Seq<(Seq<char>, Seq<char>)> {
    ps.map(|i: int, p: RenamePlan| p@)
}

/// The destination names of a plan list.
pub open spec fn targets_of(pv: Seq<(Seq<char>, Seq<char>)>) -> Seq<Seq<char>> {
    pv.map(|i: int, p: (Seq<char>, Seq<char>)| p.1)
}

/// A name the pattern can decompose.
pub open spec fn matches_pattern(toks: Seq<TokenView>, s: Seq<char>) -> bool {
    exists|vals: Seq<Seq<char>>| caps_match(toks, vals, s)
}

/// The candidates that match the pattern, in input order.
pub open spec fn matched_views(files: Seq<String>, toks: Seq<TokenView>) -> Seq<Seq<char>>
    decreases files.len(),
{
    if files.len() == 0 {
        Seq::empty()
    } else {
        let pre = matched_views(files.drop_last(), toks);
        if matches_pattern(toks, files.last()@) {
            pre.push(files.last()@)
        } else {
            pre
        }
    }
}

/// The candidates that match the pattern, stated over the plain
/// names rather than the owned strings.
pub open spec fn matched_names(names: Seq<Seq<char>>, toks: Seq<TokenView>) -> Seq<Seq<char>>
    decreases names.len(),
{
    if names.len() == 0 {
        Seq::empty()
    } else {
        let pre = matched_names(names.drop_last(), toks);
        if matches_pattern(toks, names.last()) {
            pre.push(names.last())
        } else {
            pre
        }
    }
}

/// The two statements of the matched candidates agree.
pub proof fn lemma_matched_views_names(files: Seq<String>, toks: Seq<TokenView>)
    ensures
        matched_views(files, toks) == matched_names(strings_view(files), toks),
    decreases files.len(),
{
    if files.len() > 0 {
        lemma_matched_views_names(files.drop_last(), toks);
        assert(strings_view(files).drop_last() =~= strings_view(files.drop_last()));
        assert(strings_view(files).last() == files.last()@);
    }
}

/// One set of colliding plans: every source that maps to one target.
#[derive(Debug)]
pub struct DuplicateGroup {
    pub target: String,
    pub sources: Vec<String>,
}

/// A batch rejected by the planner, by the error taxonomy.
#[derive(Debug)]
pub enum RefactorError {
    /// A malformed template.
    Syntax(PatternError),
    /// The source and target placeholder sets differ; the offending
    /// placeholders of each side are listed.
    PlaceholderMismatch {
        source_names: Vec<String>,
        target_names: Vec<String>,
        missing_in_target: Vec<String>,
        missing_in_source: Vec<String>,
    },
    /// Two or more sources map to one destination; every group of
    /// colliding plans is listed.
    DuplicateTargets { groups: Vec<DuplicateGroup> },
    /// A destination already exists on disk; every offending pair is
    /// listed.
    ExistingTargets { pairs: Vec<(String, String)> },
    /// The filename does not match the source pattern.
    NoMatch,
}

/// The sources of the plans aimed at destination `t`, in plan order.
pub open spec fn sources_for(pv: Seq<(Seq<char>, Seq<char>)>, t: Seq<char>) -> Seq<Seq<char>>
    decreases pv.len(),
{
    if pv.len() == 0 {
        Seq::empty()
    } else {
        let pre = sources_for(pv.drop_last(), t);
        if pv.last().1 == t {
            pre.push(pv.last().0)
        } else {
            pre
        }
    }
}

/// The distinct destination names, in order of first occurrence.
pub open spec fn distinct_targets(pv: Seq<(Seq<char>, Seq<char>)>) -> Seq<Seq<char>>
    decreases pv.len(),
{
    if pv.len() == 0 {
        Seq::empty()
    } else {
        let pre = distinct_targets(pv.drop_last());
        if pre.contains(pv.last().1) {
            pre
        } else {
            pre.push(pv.last().1)
        }
    }
}

/// The members of `ts` that at least two plans aim at.
pub open spec fn keep_dups(ts: Seq<Seq<char>>, pv: Seq<(Seq<char>, Seq<char>)>) -> Seq<Seq<char>>
    decreases ts.len(),
{
    if ts.len() == 0 {
        Seq::empty()
    } else {
        let pre = keep_dups(ts.drop_last(), pv);
        if sources_for(pv, ts.last()).len() >= 2 {
            pre.push(ts.last())
        } else {
            pre
        }
    }
}

/// The colliding destinations of a batch, in order of first
/// occurrence.
pub open spec fn dup_targets(pv: Seq<(Seq<char>, Seq<char>)>) -> Seq<Seq<char>> {
    keep_dups(distinct_targets(pv), pv)
}

/// A destination occurs among the distinct targets exactly when some
/// plan aims at it.
pub proof fn lemma_distinct_targets_contains(pv: Seq<(Seq<char>, Seq<char>)>, t: Seq<char>)
    ensures
        distinct_targets(pv).contains(t) <==> targets_of(pv).contains(t),
    decreases pv.len(),
{
    if pv.len() > 0 {
        lemma_distinct_targets_contains(pv.drop_last(), t);
        assert(targets_of(pv.drop_last()) =~= targets_of(pv).drop_last());
        if distinct_targets(pv).contains(t) {
            if t == pv.last().1 {
                assert(targets_of(pv)[pv.len() - 1] == t);
            } else {
                assert(distinct_targets(pv.drop_last()).contains(t)) by {
                    let pre = distinct_targets(pv.drop_last());
                    if !pre.contains(pv.last().1) {
                        let k = choose|k: int|
                            0 <= k < pre.push(pv.last().1).len() && pre.push(pv.last().1)[k] == t;
                        assert(pre[k] == t);
                    }
                }
                let k = choose|k: int|
                    0 <= k < targets_of(pv.drop_last()).len() && targets_of(pv.drop_last())[k] == t;
                assert(targets_of(pv)[k] == t);
            }
        }
        if targets_of(pv).contains(t) {
            let k = choose|k: int| 0 <= k < targets_of(pv).len() && targets_of(pv)[k] == t;
            if k < pv.len() - 1 {
                assert(targets_of(pv.drop_last())[k] == t);
                let pre = distinct_targets(pv.drop_last());
                if !pre.contains(pv.last().1) {
                    let j = choose|j: int| 0 <= j < pre.len() && pre[j] == t;
                    assert(pre.push(pv.last().1)[j] == t);
                }
            } else {
                assert(pv.last().1 == t);
                let pre = distinct_targets(pv.drop_last());
                if pre.contains(t) {
                    if !pre.contains(pv.last().1) {
                        assert(false);
                    }
                } else {
                    assert(pre.push(t)[pre.len() as int] == t);
                }
            }
        }
    }
}

/// Two plans aimed at one destination give it at least two sources.
pub proof fn lemma_sources_for_two(pv: Seq<(Seq<char>, Seq<char>)>, i: int, j: int)
    requires
        0 <= i < j < pv.len(),
        pv[i].1 == pv[j].1,
    ensures
        sources_for(pv, pv[i].1).len() >= 2,
    decreases pv.len(),
{
    let t = pv[i].1;
    if j == pv.len() - 1 {
        assert(sources_for(pv, t) == sources_for(pv.drop_last(), t).push(pv.last().0));
        lemma_sources_for_one(pv.drop_last(), i);
    } else {
        lemma_sources_for_two(pv.drop_last(), i, j);
        if pv.last().1 == t {
        } else {
        }
    }
}

/// A plan aimed at a destination gives it at least one source.
pub proof fn lemma_sources_for_one(pv: Seq<(Seq<char>, Seq<char>)>, i: int)
    requires
        0 <= i < pv.len(),
    ensures
        sources_for(pv, pv[i].1).len() >= 1,
    decreases pv.len(),
{
    if i == pv.len() - 1 {
    } else {
        lemma_sources_for_one(pv.drop_last(), i);
    }
}

/// With pairwise-distinct destinations, no destination has two
/// sources.
pub proof fn lemma_unique_targets_sources(pv: Seq<(Seq<char>, Seq<char>)>, t: Seq<char>)
    requires
        unique_names(targets_of(pv)),
    ensures
        sources_for(pv, t).len() <= 1,
    decreases pv.len(),
{
    if pv.len() > 0 {
        let tdl = targets_of(pv.drop_last());
        assert forall|a: int, b: int| 0 <= a < b < tdl.len() implies tdl[a] != tdl[b] by {
            assert(tdl[a] == targets_of(pv)[a]);
            assert(tdl[b] == targets_of(pv)[b]);
        }
        assert(unique_names(tdl));
        lemma_unique_targets_sources(pv.drop_last(), t);
        if pv.last().1 == t {
            // no earlier plan aims at t
            if sources_for(pv.drop_last(), t).len() >= 1 {
                lemma_sources_for_none(pv.drop_last(), t);
                let k = choose|k: int|
                    0 <= k < pv.len() - 1 && #[trigger] pv.drop_last()[k].1 == t;
                assert(targets_of(pv)[k] == t);
                assert(targets_of(pv)[pv.len() - 1] == t);
            }
        }
    }
}

/// A destination no plan aims at has no sources; one with a source is
/// some plan's destination.
pub proof fn lemma_sources_for_none(pv: Seq<(Seq<char>, Seq<char>)>, t: Seq<char>)
    ensures
        sources_for(pv, t).len() >= 1 ==> exists|k: int| 0 <= k < pv.len() && #[trigger] pv[k].1
            == t,
    decreases pv.len(),
{
    if pv.len() > 0 {
        lemma_sources_for_none(pv.drop_last(), t);
        if sources_for(pv, t).len() >= 1 {
            if pv.last().1 == t {
                assert(pv[pv.len() - 1].1 == t);
            } else {
                let k = choose|k: int|
                    0 <= k < pv.len() - 1 && #[trigger] pv.drop_last()[k].1 == t;
                assert(pv[k].1 == t);
            }
        }
    }
}

/// Membership in `keep_dups`.
pub proof fn lemma_keep_dups_contains(
    ts: Seq<Seq<char>>,
    pv: Seq<(Seq<char>, Seq<char>)>,
    t: Seq<char>,
)
    ensures
        keep_dups(ts, pv).contains(t) <==> ts.contains(t) && sources_for(pv, t).len() >= 2,
    decreases ts.len(),
{
    if ts.len() > 0 {
        lemma_keep_dups_contains(ts.drop_last(), pv, t);
        let pre = keep_dups(ts.drop_last(), pv);
        if keep_dups(ts, pv).contains(t) {
            if sources_for(pv, ts.last()).len() >= 2 {
                let k = choose|k: int|
                    0 <= k < pre.push(ts.last()).len() && pre.push(ts.last())[k] == t;
                if k < pre.len() {
                    assert(pre.contains(t));
                    let j = choose|j: int|
                        0 <= j < ts.len() - 1 && ts.drop_last()[j] == t;
                    assert(ts[j] == t);
                } else {
                    assert(t == ts.last());
                    assert(ts[ts.len() - 1] == t);
                }
            } else {
                assert(pre.contains(t));
                let j = choose|j: int| 0 <= j < ts.len() - 1 && ts.drop_last()[j] == t;
                assert(ts[j] == t);
            }
        }
        if ts.contains(t) && sources_for(pv, t).len() >= 2 {
            let j = choose|j: int| 0 <= j < ts.len() && ts[j] == t;
            if j < ts.len() - 1 {
                assert(ts.drop_last()[j] == t);
                assert(pre.contains(t));
                let k = choose|k: int| 0 <= k < pre.len() && pre[k] == t;
                if sources_for(pv, ts.last()).len() >= 2 {
                    assert(pre.push(ts.last())[k] == t);
                }
            } else {
                assert(ts.last() == t);
                assert(pre.push(t)[pre.len() as int] == t);
            }
        }
    }
}

/// Whether `x` occurs in the string list.
pub(crate) fn vec_contains_string(ss: &Vec<String>, x: &str) -> (r: bool)
    ensures
        r == strings_view(ss@).contains(x@),
{
    let n: usize = ss.len();
    let mut i: usize = 0;
    while i < n
        invariant
            n == ss@.len(),
            i <= n,
            forall|k: int| 0 <= k < i ==> strings_view(ss@)[k] != x@,
        decreases n - i,
    {
        if str_eq(ss[i].as_str(), x) {
            assert(strings_view(ss@)[i as int] == x@);
            return true;
        }
        i = i + 1;
    }
    proof {
        if strings_view(ss@).contains(x@) {
            let k = choose|k: int| 0 <= k < ss@.len() && strings_view(ss@)[k] == x@;
            assert(false);
        }
    }
    false
}

/// The batch has a colliding destination exactly when two plans share
/// one.
pub proof fn lemma_dup_targets_iff(pv: Seq<(Seq<char>, Seq<char>)>)
    ensures
        dup_targets(pv).len() == 0 <==> unique_names(targets_of(pv)),
{
    if !unique_names(targets_of(pv)) {
        let (i, j) = choose|i: int, j: int|
            0 <= i < j < targets_of(pv).len() && targets_of(pv)[i] == targets_of(pv)[j];
        lemma_sources_for_two(pv, i, j);
        lemma_distinct_targets_contains(pv, pv[i].1);
        assert(targets_of(pv)[i] == pv[i].1);
        lemma_keep_dups_contains(distinct_targets(pv), pv, pv[i].1);
        assert(dup_targets(pv).contains(pv[i].1));
        assert(dup_targets(pv).len() > 0);
    }
    if unique_names(targets_of(pv)) {
        if dup_targets(pv).len() > 0 {
            let t = dup_targets(pv)[0];
            assert(dup_targets(pv).contains(t));
            lemma_keep_dups_contains(distinct_targets(pv), pv, t);
            lemma_unique_targets_sources(pv, t);
        }
    }
}

/// The source names of a plan list.
pub open spec fn froms_of(pv: Seq<(Seq<char>, Seq<char>)>) -> Seq<Seq<char>> {
    pv.map(|i: int, p: (Seq<char>, Seq<char>)| p.0)
}

/// The candidates that match the pattern, in input order. A pattern
/// that does not compile, or that repeats a placeholder, matches
/// nothing.
pub fn match_files(files: &Vec<String>, pattern: &str) -> (r: Vec<String>)
    ensures
        match tokenize(normalize_spec(pattern@)) {
            Ok(toks) => if unique_names(ph_names(toks)) {
                strings_view(r@) == matched_views(files@, toks)
            } else {
                r@.len() == 0
            },
            Err(_) => r@.len() == 0,
        },
{
    let pat = match RefactorPattern::new(pattern) {
        Ok(p) => p,
        Err(_) => {
            proof {
                match tokenize(normalize_spec(pattern@)) {
                    Ok(toks) => {
                        lemma_first_dup_none_iff_unique(ph_names(toks));
                    },
                    Err(_) => {},
                }
            }
            return Vec::new();
        },
    };
    let m = match PatternMatcher::new(&pat) {
        Ok(m) => m,
        Err(_) => {
            return Vec::new();
        },
    };
    let n: usize = files.len();
    let mut out: Vec<String> = Vec::new();
    let mut i: usize = 0;
    while i < n
        invariant
            n == files@.len(),
            i <= n,
            m.wf(),
            m.toks() == pat.toks(),
            tokenize(normalize_spec(pattern@)) == Ok::<_, crate::template::PatternErrorView>(
                pat.toks(),
            ),
            unique_names(ph_names(pat.toks())),
            strings_view(out@) =~= matched_views(files@.take(i as int), pat.toks()),
        decreases n - i,
    {
        proof {
            assert(files@.take(i + 1).drop_last() =~= files@.take(i as int));
            assert(files@.take(i + 1).last() == files@[i as int]);
        }
        match m.captures(files[i].as_str()) {
            Some(b) => {
                proof {
                    assert(matches_pattern(pat.toks(), files@[i as int]@));
                }
                out.push(files[i].clone());
                proof {
                    assert(strings_view(out@) =~= matched_views(
                        files@.take(i + 1),
                        pat.toks(),
                    ));
                }
            },
            None => {
                proof {
                    assert(!matches_pattern(pat.toks(), files@[i as int]@));
                }
            },
        }
        i = i + 1;
    }
    proof {
        assert(files@.take(n as int) =~= files@);
    }
    out
}

/// One plan entry is faithful to the two patterns: the source pattern
/// decomposes the source name with values that render to the
/// destination name through the target pattern.
pub open spec fn planned_pair(
    s_toks: Seq<TokenView>,
    s_names: Seq<Seq<char>>,
    t_toks: Seq<TokenView>,
    p: (Seq<char>, Seq<char>),
) -> bool {
    exists|vals: Seq<Seq<char>>|
        caps_match(s_toks, vals, p.0) && p.1 == render_spec(t_toks, map_of(s_names, vals))
}

/// Builds the rename plan for a batch: every candidate the source
/// pattern matches, paired with its name rendered through the target
/// pattern from the captured values.
pub fn build_rename_plans(
    files: &Vec<String>,
    source: &RefactorPattern,
    target: &RefactorPattern,
) -> (r: Result<Vec<RenamePlan>, RefactorError>)
    requires
        source.wf(),
        target.wf(),
    ensures
        r is Ok,
        froms_of(plans_view(r->Ok_0@)) == matched_views(files@, source.toks()),
        forall|i: int|
            0 <= i < r->Ok_0@.len() ==> planned_pair(
                source.toks(),
                source.names(),
                target.toks(),
                #[trigger] plans_view(r->Ok_0@)[i],
            ),
{
    let m = match PatternMatcher::new(source) {
        Ok(m) => m,
        Err(e) => {
            return Err(RefactorError::Syntax(e));
        },
    };
    let n: usize = files.len();
    let mut plans: Vec<RenamePlan> = Vec::new();
    let mut i: usize = 0;
    while i < n
        invariant
            n == files@.len(),
            i <= n,
            m.wf(),
            source.wf(),
            target.wf(),
            m.toks() == source.toks(),
            m.names() == source.names(),
            froms_of(plans_view(plans@)) =~= matched_views(files@.take(i as int), source.toks()),
            forall|k: int|
                0 <= k < plans@.len() ==> planned_pair(
                    source.toks(),
                    source.names(),
                    target.toks(),
                    #[trigger] plans_view(plans@)[k],
                ),
        decreases n - i,
    {
        proof {
            assert(files@.take(i + 1).drop_last() =~= files@.take(i as int));
            assert(files@.take(i + 1).last() == files@[i as int]);
        }
        match m.captures(files[i].as_str()) {
            Some(b) => {
                let to = apply_pattern(target, &b);
                let ghost before = plans@;
                plans.push(RenamePlan { from: files[i].clone(), to });
                proof {
                    assert(matches_pattern(source.toks(), files@[i as int]@));
                    assert(froms_of(plans_view(plans@)) =~= froms_of(plans_view(before)).push(
                        files@[i as int]@,
                    ));
                    assert(caps_match(source.toks(), b.vals(), files@[i as int]@));
                    assert(plans_view(plans@)[plans@.len() - 1].1 == render_spec(
                        target.toks(),
                        map_of(source.names(), b.vals()),
                    ));
                    assert forall|k: int| 0 <= k < plans@.len() implies planned_pair(
                        source.toks(),
                        source.names(),
                        target.toks(),
                        #[trigger] plans_view(plans@)[k],
                    ) by {
                        if k < plans@.len() - 1 {
                            assert(plans_view(plans@)[k] == plans_view(before)[k]);
                        } else {
                            assert(plans_view(plans@)[k].0 == files@[i as int]@);
                            assert(caps_match(source.toks(), b.vals(), plans_view(plans@)[k].0)
                                && plans_view(plans@)[k].1 == render_spec(
                                target.toks(),
                                map_of(source.names(), b.vals()),
                            ));
                        }
                    }
                }
            },
            None => {
                proof {
                    assert(!matches_pattern(source.toks(), files@[i as int]@));
                }
            },
        }
        i = i + 1;
    }
    proof {
        assert(files@.take(n as int) =~= files@);
    }
    Ok(plans)
}

/// The plans that change a name at all: entries whose source equals
/// their destination are no-ops and excluded from execution.
pub open spec fn changed_plans(pv: Seq<(Seq<char>, Seq<char>)>) -> Seq<(Seq<char>, Seq<char>)>
    decreases pv.len(),
{
    if pv.len() == 0 {
        Seq::empty()
    } else {
        let pre = changed_plans(pv.drop_last());
        if pv.last().0 != pv.last().1 {
            pre.push(pv.last())
        } else {
            pre
        }
    }
}

/// Drops the no-op entries of a plan list.
pub fn drop_noops(plans: &Vec<RenamePlan>) -> (r: Vec<RenamePlan>)
    ensures
        plans_view(r@) == changed_plans(plans_view(plans@)),
{
    let n: usize = plans.len();
    let mut out: Vec<RenamePlan> = Vec::new();
    let mut i: usize = 0;
    while i < n
        invariant
            n == plans@.len(),
            i <= n,
            plans_view(out@) =~= changed_plans(plans_view(plans@).take(i as int)),
        decreases n - i,
    {
        proof {
            assert(plans_view(plans@).take(i + 1).drop_last() =~= plans_view(plans@).take(
                i as int,
            ));
            assert(plans_view(plans@).take(i + 1).last() == plans@[i as int]@);
        }
        if !str_eq(plans[i].from.as_str(), plans[i].to.as_str()) {
            out.push(plans[i].duplicate());
            proof {
                assert(plans_view(out@) =~= changed_plans(plans_view(plans@).take(i + 1)));
            }
        }
        i = i + 1;
    }
    proof {
        assert(plans_view(plans@).take(n as int) =~= plans_view(plans@));
    }
    out
}

/// Conflict check A: no two sources may map to one destination. On
/// failure, every colliding destination is reported with every source
/// that produces it.
pub fn check_for_duplicates_in_plans(renames: &Vec<RenamePlan>) -> (r: Result<(), RefactorError>)
    ensures
        r is Ok <==> unique_names(targets_of(plans_view(renames@))),
        match r {
            Ok(_) => true,
            Err(e) => match e {
                RefactorError::DuplicateTargets { groups } => {
                    &&& groups@.map(|i: int, g: DuplicateGroup| g.target@) == dup_targets(
                        plans_view(renames@),
                    )
                    &&& forall|k: int|
                        0 <= k < groups@.len() ==> strings_view(#[trigger] groups@[k].sources@)
                            == sources_for(plans_view(renames@), groups@[k].target@)
                },
                _ => false,
            },
        },
{
    let ghost pv = plans_view(renames@);
    let n: usize = renames.len();
    // distinct destinations, in order of first occurrence
    let mut distinct: Vec<String> = Vec::new();
    let mut i: usize = 0;
    while i < n
        invariant
            n == renames@.len(),
            i <= n,
            pv == plans_view(renames@),
            strings_view(distinct@) =~= distinct_targets(pv.take(i as int)),
        decreases n - i,
    {
        proof {
            assert(pv.take(i + 1).drop_last() =~= pv.take(i as int));
            assert(pv.take(i + 1).last() == renames@[i as int]@);
        }
        if !vec_contains_string(&distinct, renames[i].to.as_str()) {
            distinct.push(renames[i].to.clone());
        }
        proof {
            assert(strings_view(distinct@) =~= distinct_targets(pv.take(i + 1)));
        }
        i = i + 1;
    }
    proof {
        assert(pv.take(n as int) =~= pv);
    }
    // one group per colliding destination
    let dn: usize = distinct.len();
    let mut groups: Vec<DuplicateGroup> = Vec::new();
    let mut k: usize = 0;
    while k < dn
        invariant
            n == renames@.len(),
            dn == distinct@.len(),
            k <= dn,
            pv == plans_view(renames@),
            strings_view(distinct@) == distinct_targets(pv),
            groups@.map(|i: int, g: DuplicateGroup| g.target@) =~= keep_dups(
                strings_view(distinct@).take(k as int),
                pv,
            ),
            forall|q: int|
                0 <= q < groups@.len() ==> strings_view(#[trigger] groups@[q].sources@)
                    == sources_for(pv, groups@[q].target@),
        decreases dn - k,
    {
        proof {
            assert(strings_view(distinct@).take(k + 1).drop_last() =~= strings_view(
                distinct@,
            ).take(k as int));
            assert(strings_view(distinct@).take(k + 1).last() == distinct@[k as int]@);
        }
        let mut sources: Vec<String> = Vec::new();
        let mut j: usize = 0;
        while j < n
            invariant
                n == renames@.len(),
                j <= n,
                k < dn == distinct@.len(),
                pv == plans_view(renames@),
                strings_view(sources@) =~= sources_for(pv.take(j as int), distinct@[k as int]@),
            decreases n - j,
        {
            proof {
                assert(pv.take(j + 1).drop_last() =~= pv.take(j as int));
                assert(pv.take(j + 1).last() == renames@[j as int]@);
            }
            if str_eq(renames[j].to.as_str(), distinct[k].as_str()) {
                sources.push(renames[j].from.clone());
            }
            proof {
                assert(strings_view(sources@) =~= sources_for(
                    pv.take(j + 1),
                    distinct@[k as int]@,
                ));
            }
            j = j + 1;
        }
        proof {
            assert(pv.take(n as int) =~= pv);
        }
        let ghost gbefore = groups@;
        if sources.len() >= 2 {
            groups.push(DuplicateGroup { target: distinct[k].clone(), sources });
            proof {
                assert(groups@.map(|i: int, g: DuplicateGroup| g.target@) =~= gbefore.map(
                    |i: int, g: DuplicateGroup| g.target@,
                ).push(distinct@[k as int]@));
                assert(keep_dups(strings_view(distinct@).take(k + 1), pv) =~= keep_dups(
                    strings_view(distinct@).take(k as int),
                    pv,
                ).push(distinct@[k as int]@));
            }
        } else {
            proof {
                assert(keep_dups(strings_view(distinct@).take(k + 1), pv) =~= keep_dups(
                    strings_view(distinct@).take(k as int),
                    pv,
                ));
            }
        }
        k = k + 1;
    }
    proof {
        assert(strings_view(distinct@).take(dn as int) =~= strings_view(distinct@));
        lemma_dup_targets_iff(pv);
    }
    if groups.len() == 0 {
        proof {
            assert(groups@.map(|i: int, g: DuplicateGroup| g.target@) =~= Seq::<
                Seq<char>,
            >::empty());
        }
        Ok(())
    } else {
        Err(RefactorError::DuplicateTargets { groups })
    }
}

/// The plans whose destination already exists although the entry is
/// not a no-op, in plan order.
pub open spec fn existing_conflicts(
    pv: Seq<(Seq<char>, Seq<char>)>,
    existing: Seq<Seq<char>>,
) -> Seq<(Seq<char>, Seq<char>)>
    decreases pv.len(),
{
    if pv.len() == 0 {
        Seq::empty()
    } else {
        let pre = existing_conflicts(pv.drop_last(), existing);
        if pv.last().0 != pv.last().1 && existing.contains(pv.last().1) {
            pre.push(pv.last())
        } else {
            pre
        }
    }
}

/// The views of a pair list.
pub open spec fn pairs_view(ps: Seq<(String, String)>) -> Seq<(Seq<char>, Seq<char>)> {
    ps.map(|i: int, p: (String, String)| (p.0@, p.1@))
}

/// Conflict check B: no destination of a real rename may collide with
/// a name that already exists. On failure every offending pair is
/// reported, in plan order.
pub fn check_existing_targets(
    renames: &Vec<(String, String)>,
    existing: &Vec<String>,
) -> (r: Result<(), RefactorError>)
    ensures
        r is Ok <==> existing_conflicts(pairs_view(renames@), strings_view(existing@)).len() == 0,
        match r {
            Ok(_) => true,
            Err(e) => match e {
                RefactorError::ExistingTargets { pairs } => pairs_view(pairs@)
                    == existing_conflicts(pairs_view(renames@), strings_view(existing@)),
                _ => false,
            },
        },
{
    let ghost pv = pairs_view(renames@);
    let ghost ex = strings_view(existing@);
    let n: usize = renames.len();
    let mut conflicts: Vec<(String, String)> = Vec::new();
    let mut i: usize = 0;
    while i < n
        invariant
            n == renames@.len(),
            i <= n,
            pv == pairs_view(renames@),
            ex == strings_view(existing@),
            pairs_view(conflicts@) =~= existing_conflicts(pv.take(i as int), ex),
        decreases n - i,
    {
        proof {
            assert(pv.take(i + 1).drop_last() =~= pv.take(i as int));
            assert(pv.take(i + 1).last() == (renames@[i as int].0@, renames@[i as int].1@));
        }
        if !str_eq(renames[i].0.as_str(), renames[i].1.as_str()) && vec_contains_string(
            existing,
            renames[i].1.as_str(),
        ) {
            conflicts.push((renames[i].0.clone(), renames[i].1.clone()));
        }
        proof {
            assert(pairs_view(conflicts@) =~= existing_conflicts(pv.take(i + 1), ex));
        }
        i = i + 1;
    }
    proof {
        assert(pv.take(n as int) =~= pv);
    }
    if conflicts.len() == 0 {
        Ok(())
    } else {
        Err(RefactorError::ExistingTargets { pairs: conflicts })
    }
}

/// Conflict check B over a built plan list.
pub fn check_existing_target_paths(
    renames: &Vec<RenamePlan>,
    existing: &Vec<String>,
) -> (r: Result<(), RefactorError>)
    ensures
        r is Ok <==> existing_conflicts(plans_view(renames@), strings_view(existing@)).len() == 0,
        match r {
            Ok(_) => true,
            Err(e) => match e {
                RefactorError::ExistingTargets { pairs } => pairs_view(pairs@)
                    == existing_conflicts(plans_view(renames@), strings_view(existing@)),
                _ => false,
            },
        },
{
    let ghost pv = plans_view(renames@);
    let ghost ex = strings_view(existing@);
    let n: usize = renames.len();
    let mut conflicts: Vec<(String, String)> = Vec::new();
    let mut i: usize = 0;
    while i < n
        invariant
            n == renames@.len(),
            i <= n,
            pv == plans_view(renames@),
            ex == strings_view(existing@),
            pairs_view(conflicts@) =~= existing_conflicts(pv.take(i as int), ex),
        decreases n - i,
    {
        proof {
            assert(pv.take(i + 1).drop_last() =~= pv.take(i as int));
            assert(pv.take(i + 1).last() == renames@[i as int]@);
        }
        if !str_eq(renames[i].from.as_str(), renames[i].to.as_str()) && vec_contains_string(
            existing,
            renames[i].to.as_str(),
        ) {
            conflicts.push((renames[i].from.clone(), renames[i].to.clone()));
        }
        proof {
            assert(pairs_view(conflicts@) =~= existing_conflicts(pv.take(i + 1), ex));
        }
        i = i + 1;
    }
    proof {
        assert(pv.take(n as int) =~= pv);
    }
    if conflicts.len() == 0 {
        Ok(())
    } else {
        Err(RefactorError::ExistingTargets { pairs: conflicts })
    }
}

/// The compilation outcome of a raw pattern string: its tokens, or the
/// first syntax error, or the first duplicated placeholder.
pub open spec fn compile_spec(raw: Seq<char>) -> Result<Seq<TokenView>, crate::template::PatternErrorView> {
    match tokenize(normalize_spec(raw)) {
        Ok(toks) => match first_dup(ph_names(toks)) {
            Option::None => Ok(toks),
            Option::Some(n) => Err(crate::template::PatternErrorView::DuplicatePlaceholder(n)),
        },
        Err(e) => Err(e),
    }
}

/// Two patterns use the same placeholders, in any order.
pub open spec fn same_name_set(a: Seq<Seq<char>>, b: Seq<Seq<char>>) -> bool {
    forall|n: Seq<char>| a.contains(n) <==> b.contains(n)
}

/// The members of `a` that do not occur in `b`, in order.
pub open spec fn names_not_in(a: Seq<Seq<char>>, b: Seq<Seq<char>>) -> Seq<Seq<char>>
    decreases a.len(),
{
    if a.len() == 0 {
        Seq::empty()
    } else {
        let pre = names_not_in(a.drop_last(), b);
        if b.contains(a.last()) {
            pre
        } else {
            pre.push(a.last())
        }
    }
}

/// `names_not_in` is empty exactly when `a` is contained in `b`.
pub proof fn lemma_names_not_in_empty(a: Seq<Seq<char>>, b: Seq<Seq<char>>)
    ensures
        names_not_in(a, b).len() == 0 <==> (forall|n: Seq<char>|
            a.contains(n) ==> b.contains(n)),
    decreases a.len(),
{
    if a.len() > 0 {
        lemma_names_not_in_empty(a.drop_last(), b);
        if names_not_in(a, b).len() == 0 {
            assert forall|n: Seq<char>| a.contains(n) implies b.contains(n) by {
                let k = choose|k: int| 0 <= k < a.len() && a[k] == n;
                if k < a.len() - 1 {
                    assert(a.drop_last()[k] == n);
                    assert(a.drop_last().contains(n));
                }
            }
        }
        if forall|n: Seq<char>| a.contains(n) ==> b.contains(n) {
            assert forall|n: Seq<char>| a.drop_last().contains(n) implies b.contains(n) by {
                let k = choose|k: int| 0 <= k < a.len() - 1 && a.drop_last()[k] == n;
                assert(a[k] == n);
            }
            assert(a[a.len() - 1] == a.last());
            assert(a.contains(a.last()));
        }
    }
}

/// Compiles a pattern, mapping its failure into the planner taxonomy.
fn compile_pattern(raw: &str) -> (r: Result<RefactorPattern, RefactorError>)
    ensures
        match r {
            Ok(p) => {
                &&& p.wf()
                &&& compile_spec(raw@) == Ok::<_, crate::template::PatternErrorView>(p.toks())
            },
            Err(e) => compile_spec(raw@) is Err && match e {
                RefactorError::Syntax(pe) => pe@ == compile_spec(raw@)->Err_0,
                _ => false,
            },
        },
{
    match RefactorPattern::new(raw) {
        Ok(p) => {
            proof {
                lemma_first_dup_none_iff_unique(names_view(p.placeholders@));
            }
            Ok(p)
        },
        Err(e) => Err(RefactorError::Syntax(e)),
    }
}

/// The names of a compiled pattern's placeholders, as owned strings.
fn placeholder_names(p: &RefactorPattern) -> (r: Vec<String>)
    ensures
        strings_view(r@) == p.names(),
{
    let n: usize = p.placeholders.len();
    let mut out: Vec<String> = Vec::new();
    let mut i: usize = 0;
    while i < n
        invariant
            n == p.placeholders@.len(),
            i <= n,
            strings_view(out@) =~= names_view(p.placeholders@).take(i as int),
        decreases n - i,
    {
        let ghost obefore = out@;
        out.push(p.placeholders[i].name().to_owned());
        proof {
            assert(out@.last()@ == p.placeholders@[i as int]@);
            assert(out@.drop_last() =~= obefore);
            assert(strings_view(out@) =~= strings_view(obefore).push(
                p.placeholders@[i as int]@,
            ));
            assert(names_view(p.placeholders@).take(i + 1) =~= names_view(
                p.placeholders@,
            ).take(i as int).push(p.placeholders@[i as int]@));
        }
        i = i + 1;
    }
    proof {
        assert(names_view(p.placeholders@).take(n as int) =~= names_view(p.placeholders@));
    }
    out
}

/// The names of `a` whose name is absent from `b`'s placeholders.
fn missing_names(a: &RefactorPattern, b: &RefactorPattern) -> (r: Vec<String>)
    ensures
        strings_view(r@) == names_not_in(a.names(), b.names()),
{
    let n: usize = a.placeholders.len();
    let mut out: Vec<String> = Vec::new();
    let mut i: usize = 0;
    while i < n
        invariant
            n == a.placeholders@.len(),
            i <= n,
            strings_view(out@) =~= names_not_in(
                names_view(a.placeholders@).take(i as int),
                names_view(b.placeholders@),
            ),
        decreases n - i,
    {
        proof {
            assert(names_view(a.placeholders@).take(i + 1).drop_last() =~= names_view(
                a.placeholders@,
            ).take(i as int));
            assert(names_view(a.placeholders@).take(i + 1).last() == a.placeholders@[i as int]@);
        }
        if !crate::template::placeholders_contain(&b.placeholders, a.placeholders[i].name()) {
            out.push(a.placeholders[i].name().to_owned());
        }
        proof {
            assert(strings_view(out@) =~= names_not_in(
                names_view(a.placeholders@).take(i + 1),
                names_view(b.placeholders@),
            ));
        }
        i = i + 1;
    }
    proof {
        assert(names_view(a.placeholders@).take(n as int) =~= names_view(a.placeholders@));
    }
    out
}

/// Checks that two raw patterns compile and use the same placeholder
/// set; a mismatch reports each side's placeholders and the asymmetric
/// differences in both directions.
pub fn validate_placeholder_match(source: &str, target: &str) -> (r: Result<(), RefactorError>)
    ensures
        r is Ok <==> (compile_spec(source@) is Ok && compile_spec(target@) is Ok && same_name_set(
            ph_names(compile_spec(source@)->Ok_0),
            ph_names(compile_spec(target@)->Ok_0),
        )),
        match r {
            Ok(_) => true,
            Err(e) => match e {
                RefactorError::Syntax(pe) => match compile_spec(source@) {
                    Ok(_) => compile_spec(target@) is Err && pe@ == compile_spec(target@)->Err_0,
                    Err(se) => pe@ == se,
                },
                RefactorError::PlaceholderMismatch {
                    source_names,
                    target_names,
                    missing_in_target,
                    missing_in_source,
                } => {
                    let sn = ph_names(compile_spec(source@)->Ok_0);
                    let tn = ph_names(compile_spec(target@)->Ok_0);
                    &&& compile_spec(source@) is Ok
                    &&& compile_spec(target@) is Ok
                    &&& strings_view(source_names@) == sn
                    &&& strings_view(target_names@) == tn
                    &&& strings_view(missing_in_target@) == names_not_in(sn, tn)
                    &&& strings_view(missing_in_source@) == names_not_in(tn, sn)
                },
                _ => false,
            },
        },
{
    let sp = match compile_pattern(source) {
        Ok(p) => p,
        Err(e) => {
            return Err(e);
        },
    };
    let tp = match compile_pattern(target) {
        Ok(p) => p,
        Err(e) => {
            return Err(e);
        },
    };
    let missing_in_target = missing_names(&sp, &tp);
    let missing_in_source = missing_names(&tp, &sp);
    proof {
        lemma_names_not_in_empty(sp.names(), tp.names());
        lemma_names_not_in_empty(tp.names(), sp.names());
    }
    if missing_in_target.len() == 0 && missing_in_source.len() == 0 {
        Ok(())
    } else {
        Err(
            RefactorError::PlaceholderMismatch {
                source_names: placeholder_names(&sp),
                target_names: placeholder_names(&tp),
                missing_in_target,
                missing_in_source,
            },
        )
    }
}

/// Rewrites one filename from the source shape to the target shape.
pub fn refactor_filename(filename: &str, source_pattern: &str, target_pattern: &str) -> (r: Result<
    String,
    RefactorError,
>)
    ensures
        match (compile_spec(source_pattern@), compile_spec(target_pattern@)) {
            (Ok(st), Ok(tt)) => match r {
                Ok(out) => matches_pattern(st, filename@) && planned_pair(
                    st,
                    ph_names(st),
                    tt,
                    (filename@, out@),
                ),
                Err(e) => !matches_pattern(st, filename@) && e is NoMatch,
            },
            (Err(se), _) => r is Err && match r->Err_0 {
                RefactorError::Syntax(pe) => pe@ == se,
                _ => false,
            },
            (Ok(_), Err(te)) => r is Err && match r->Err_0 {
                RefactorError::Syntax(pe) => pe@ == te,
                _ => false,
            },
        },
{
    let sp = match compile_pattern(source_pattern) {
        Ok(p) => p,
        Err(e) => {
            return Err(e);
        },
    };
    let tp = match compile_pattern(target_pattern) {
        Ok(p) => p,
        Err(e) => {
            return Err(e);
        },
    };
    let m = match PatternMatcher::new(&sp) {
        Ok(m) => m,
        Err(e) => {
            return Err(RefactorError::Syntax(e));
        },
    };
    match m.captures(filename) {
        Some(b) => {
            let out = apply_pattern(&tp, &b);
            proof {
                assert(ph_names(sp.toks()) == sp.names());
                let pair = ((filename@, out@));
                assert(caps_match(sp.toks(), b.vals(), pair.0));
                assert(pair.1 == render_spec(tp.toks(), map_of(ph_names(sp.toks()), b.vals())));
                assert(planned_pair(sp.toks(), ph_names(sp.toks()), tp.toks(), pair));
            }
            Ok(out)
        },
        None => Err(RefactorError::NoMatch),
    }
}

/// Conflict check A from raw inputs: compiles the patterns, plans the
/// batch, and checks that no destination is produced twice.
pub fn check_for_duplicates(
    files: &Vec<String>,
    source_pattern: &str,
    target_pattern: &str,
) -> (r: Result<(), RefactorError>)
    ensures
        match (compile_spec(source_pattern@), compile_spec(target_pattern@)) {
            (Ok(st), Ok(tt)) => exists|ps: Seq<(Seq<char>, Seq<char>)>|
                {
                    &&& froms_of(ps) == matched_views(files@, st)
                    &&& (forall|i: int|
                        0 <= i < ps.len() ==> planned_pair(st, ph_names(st), tt, #[trigger] ps[i]))
                    &&& (r is Ok <==> unique_names(targets_of(ps)))
                    &&& match r {
                        Ok(_) => true,
                        Err(e) => match e {
                            RefactorError::DuplicateTargets { groups } => {
                                &&& groups@.map(|i: int, g: DuplicateGroup| g.target@)
                                    == dup_targets(ps)
                                &&& forall|k: int|
                                    0 <= k < groups@.len() ==> strings_view(
                                        #[trigger] groups@[k].sources@,
                                    ) == sources_for(ps, groups@[k].target@)
                            },
                            _ => false,
                        },
                    }
                },
            (Err(se), _) => r is Err && match r->Err_0 {
                RefactorError::Syntax(pe) => pe@ == se,
                _ => false,
            },
            (Ok(_), Err(te)) => r is Err && match r->Err_0 {
                RefactorError::Syntax(pe) => pe@ == te,
                _ => false,
            },
        },
{
    let sp = match compile_pattern(source_pattern) {
        Ok(p) => p,
        Err(e) => {
            return Err(e);
        },
    };
    let tp = match compile_pattern(target_pattern) {
        Ok(p) => p,
        Err(e) => {
            return Err(e);
        },
    };
    let plans = match build_rename_plans(files, &sp, &tp) {
        Ok(plans) => plans,
        Err(e) => {
            return Err(e);
        },
    };
    let r = check_for_duplicates_in_plans(&plans);
    proof {
        assert(ph_names(sp.toks()) == sp.names());
    }
    r
}

/// A placeholder name in braces, as it is shown to the user.
pub open spec fn braced(n: Seq<char>) -> Seq<char> {
    "{"@ + n + "}"@
}

/// Braced names joined with a comma and a space.
pub open spec fn joined(names: Seq<Seq<char>>) -> Seq<char>
    decreases names.len(),
{
    if names.len() == 0 {
        Seq::empty()
    } else if names.len() == 1 {
        braced(names[0])
    } else {
        joined(names.drop_last()) + ", "@ + braced(names.last())
    }
}

/// Joins placeholder names for a report line.
fn join_braced(names: &Vec<String>) -> (r: String)
    ensures
        r@ == joined(strings_view(names@)),
{
    let n: usize = names.len();
    let mut out = String::new();
    let mut i: usize = 0;
    while i < n
        invariant
            n == names@.len(),
            i <= n,
            out@ == joined(strings_view(names@).take(i as int)),
        decreases n - i,
    {
        proof {
            assert(strings_view(names@).take(i + 1).drop_last() =~= strings_view(names@).take(
                i as int,
            ));
            assert(strings_view(names@).take(i + 1).last() == names@[i as int]@);
        }
        if i > 0 {
            out.append(", ");
        }
        out.append("{");
        out.append(names[i].as_str());
        out.append("}");
        proof {
            if i == 0 {
                assert(out@ =~= joined(strings_view(names@).take(1)));
            } else {
                assert(out@ =~= joined(strings_view(names@).take(i + 1)));
            }
        }
        i = i + 1;
    }
    proof {
        assert(strings_view(names@).take(n as int) =~= strings_view(names@));
    }
    out
}

/// The placeholder-mismatch report: both placeholder sets and the
/// asymmetric differences in both directions.
pub open spec fn mismatch_message_spec(
    sn: Seq<Seq<char>>,
    tn: Seq<Seq<char>>,
    mit: Seq<Seq<char>>,
    mis: Seq<Seq<char>>,
) -> Seq<char> {
    "Error: Placeholder mismatch between patterns\n"@ + "  - Source has: "@ + joined(sn) + "\n"@
        + "  - Target has: "@ + joined(tn) + "\n"@ + (if mit.len() > 0 {
        "  - Missing in target: "@ + joined(mit) + "\n"@
    } else {
        Seq::empty()
    }) + (if mis.len() > 0 {
        "  - Missing in source: "@ + joined(mis) + "\n"@
    } else {
        Seq::empty()
    }) + "\nBoth patterns must use the same placeholders."@
}

/// Renders the placeholder-mismatch report for two compiled patterns.
pub fn placeholder_mismatch_message(source: &RefactorPattern, target: &RefactorPattern) -> (r:
    String)
    ensures
        r@ == mismatch_message_spec(
            source.names(),
            target.names(),
            names_not_in(source.names(), target.names()),
            names_not_in(target.names(), source.names()),
        ),
{
    let source_names = placeholder_names(source);
    let target_names = placeholder_names(target);
    let missing_in_target = missing_names(source, target);
    let missing_in_source = missing_names(target, source);
    let mut out = String::new();
    out.append("Error: Placeholder mismatch between patterns\n");
    out.append("  - Source has: ");
    out.append(join_braced(&source_names).as_str());
    out.append("\n");
    out.append("  - Target has: ");
    out.append(join_braced(&target_names).as_str());
    out.append("\n");
    if missing_in_target.len() > 0 {
        out.append("  - Missing in target: ");
        out.append(join_braced(&missing_in_target).as_str());
        out.append("\n");
    }
    if missing_in_source.len() > 0 {
        out.append("  - Missing in source: ");
        out.append(join_braced(&missing_in_source).as_str());
        out.append("\n");
    }
    out.append("\nBoth patterns must use the same placeholders.");
    proof {
        assert(out@ =~= mismatch_message_spec(
            source.names(),
            target.names(),
            names_not_in(source.names(), target.names()),
            names_not_in(target.names(), source.names()),
        ));
    }
    out
}

/// The report lines for one group's sources.
pub open spec fn source_lines(ss: Seq<Seq<char>>) -> Seq<char>
    decreases ss.len(),
{
    if ss.len() == 0 {
        Seq::empty()
    } else {
        source_lines(ss.drop_last()) + "    - "@ + ss.last() + "\n"@
    }
}

/// The report lines for the colliding groups.
pub open spec fn group_lines(groups: Seq<DuplicateGroup>) -> Seq<char>
    decreases groups.len(),
{
    if groups.len() == 0 {
        Seq::empty()
    } else {
        group_lines(groups.drop_last()) + "  "@ + groups.last().target@
            + " would be created by:\n"@ + source_lines(strings_view(groups.last().sources@))
            + "\n"@
    }
}

/// The report lines for the pairs whose destination already exists.
pub open spec fn pair_lines(ps: Seq<(Seq<char>, Seq<char>)>) -> Seq<char>
    decreases ps.len(),
{
    if ps.len() == 0 {
        Seq::empty()
    } else {
        pair_lines(ps.drop_last()) + "  "@ + ps.last().1 + " already exists\n  (source: "@
            + ps.last().0 + ")\n\n"@
    }
}

/// The rendered message of a planner error.
pub open spec fn refactor_error_message(e: &RefactorError) -> Seq<char> {
    match e {
        RefactorError::Syntax(pe) => crate::template::pattern_error_message(pe@),
        RefactorError::PlaceholderMismatch {
            source_names,
            target_names,
            missing_in_target,
            missing_in_source,
        } => mismatch_message_spec(
            strings_view(source_names@),
            strings_view(target_names@),
            strings_view(missing_in_target@),
            strings_view(missing_in_source@),
        ),
        RefactorError::DuplicateTargets { groups } => "Error: Target pattern would create duplicate filenames\n\nConflicts:\n"@
            + group_lines(groups@) + "Aborting. No files were renamed."@,
        RefactorError::ExistingTargets { pairs } => "Error: Target filename already exists\n\n"@
            + pair_lines(pairs_view(pairs@))
            + "Use --force to overwrite existing files (dangerous).\nAborting. No files were renamed."@,
        RefactorError::NoMatch => "Filename does not match source pattern"@,
    }
}

impl RefactorError {
    /// The human-readable text of this error.
    pub fn message(&self) -> (r: String)
        ensures
            r@ == refactor_error_message(self),
    {
        match self {
            RefactorError::Syntax(pe) => pe.message(),
            RefactorError::PlaceholderMismatch {
                source_names,
                target_names,
                missing_in_target,
                missing_in_source,
            } => {
                let mut out = String::new();
                out.append("Error: Placeholder mismatch between patterns\n");
                out.append("  - Source has: ");
                out.append(join_braced(source_names).as_str());
                out.append("\n");
                out.append("  - Target has: ");
                out.append(join_braced(target_names).as_str());
                out.append("\n");
                if missing_in_target.len() > 0 {
                    out.append("  - Missing in target: ");
                    out.append(join_braced(missing_in_target).as_str());
                    out.append("\n");
                }
                if missing_in_source.len() > 0 {
                    out.append("  - Missing in source: ");
                    out.append(join_braced(missing_in_source).as_str());
                    out.append("\n");
                }
                out.append("\nBoth patterns must use the same placeholders.");
                proof {
                    assert(out@ =~= refactor_error_message(self));
                }
                out
            },
            RefactorError::DuplicateTargets { groups } => {
                let mut out = String::new();
                out.append("Error: Target pattern would create duplicate filenames\n\nConflicts:\n");
                let n: usize = groups.len();
                let mut k: usize = 0;
                while k < n
                    invariant
                        n == groups@.len(),
                        k <= n,
                        out@ == "Error: Target pattern would create duplicate filenames\n\nConflicts:\n"@
                            + group_lines(groups@.take(k as int)),
                    decreases n - k,
                {
                    proof {
                        assert(groups@.take(k + 1).drop_last() =~= groups@.take(k as int));
                        assert(groups@.take(k + 1).last() == groups@[k as int]);
                    }
                    out.append("  ");
                    out.append(groups[k].target.as_str());
                    out.append(" would be created by:\n");
                    let sn: usize = groups[k].sources.len();
                    let mut j: usize = 0;
                    while j < sn
                        invariant
                            k < groups@.len(),
                            sn == groups@[k as int].sources@.len(),
                            j <= sn,
                            out@ == "Error: Target pattern would create duplicate filenames\n\nConflicts:\n"@
                                + group_lines(groups@.take(k as int)) + "  "@
                                + groups@[k as int].target@ + " would be created by:\n"@
                                + source_lines(
                                strings_view(groups@[k as int].sources@).take(j as int),
                            ),
                        decreases sn - j,
                    {
                        proof {
                            assert(strings_view(groups@[k as int].sources@).take(j + 1).drop_last()
                                =~= strings_view(groups@[k as int].sources@).take(j as int));
                            assert(strings_view(groups@[k as int].sources@).take(j + 1).last()
                                == groups@[k as int].sources@[j as int]@);
                        }
                        out.append("    - ");
                        out.append(groups[k].sources[j].as_str());
                        out.append("\n");
                        proof {
                            assert(source_lines(
                                strings_view(groups@[k as int].sources@).take(j + 1),
                            ) =~= source_lines(
                                strings_view(groups@[k as int].sources@).take(j as int),
                            ) + "    - "@ + groups@[k as int].sources@[j as int]@ + "\n"@);
                            assert(out@ =~= "Error: Target pattern would create duplicate filenames\n\nConflicts:\n"@
                                + group_lines(groups@.take(k as int)) + "  "@
                                + groups@[k as int].target@ + " would be created by:\n"@
                                + source_lines(
                                strings_view(groups@[k as int].sources@).take(j + 1),
                            ));
                        }
                        j = j + 1;
                    }
                    out.append("\n");
                    proof {
                        assert(strings_view(groups@[k as int].sources@).take(sn as int) =~= strings_view(
                            groups@[k as int].sources@,
                        ));
                        assert(out@ =~= "Error: Target pattern would create duplicate filenames\n\nConflicts:\n"@
                            + group_lines(groups@.take(k + 1)));
                    }
                    k = k + 1;
                }
                out.append("Aborting. No files were renamed.");
                proof {
                    assert(groups@.take(n as int) =~= groups@);
                    assert(out@ =~= refactor_error_message(self));
                }
                out
            },
            RefactorError::ExistingTargets { pairs } => {
                let mut out = String::new();
                out.append("Error: Target filename already exists\n\n");
                let n: usize = pairs.len();
                let mut k: usize = 0;
                while k < n
                    invariant
                        n == pairs@.len(),
                        k <= n,
                        out@ == "Error: Target filename already exists\n\n"@ + pair_lines(
                            pairs_view(pairs@).take(k as int),
                        ),
                    decreases n - k,
                {
                    proof {
                        assert(pairs_view(pairs@).take(k + 1).drop_last() =~= pairs_view(
                            pairs@,
                        ).take(k as int));
                        assert(pairs_view(pairs@).take(k + 1).last() == (
                            pairs@[k as int].0@,
                            pairs@[k as int].1@,
                        ));
                    }
                    out.append("  ");
                    out.append(pairs[k].1.as_str());
                    out.append(" already exists\n  (source: ");
                    out.append(pairs[k].0.as_str());
                    out.append(")\n\n");
                    proof {
                        assert(out@ =~= "Error: Target filename already exists\n\n"@ + pair_lines(
                            pairs_view(pairs@).take(k + 1),
                        ));
                    }
                    k = k + 1;
                }
                out.append(
                    "Use --force to overwrite existing files (dangerous).\nAborting. No files were renamed.",
                );
                proof {
                    assert(pairs_view(pairs@).take(n as int) =~= pairs_view(pairs@));
                    assert(out@ =~= refactor_error_message(self));
                }
                out
            },
            RefactorError::NoMatch => "Filename does not match source pattern".to_owned(),
        }
    }
}

/// Plans a whole refactor: compiles both patterns, requires equal
/// placeholder sets, plans the batch, drops the no-ops, and rejects
/// the whole batch on a duplicate destination or, without `force`, on
/// a destination that already exists. Nothing is renamed here: an
/// empty candidate list yields an empty plan, not an error.
pub fn plan_refactor(
    files: &Vec<String>,
    from: &str,
    to: &str,
    existing: &Vec<String>,
    force: bool,
) -> (r: Result<Vec<RenamePlan>, RefactorError>)
    ensures
        match (compile_spec(from@), compile_spec(to@)) {
            (Ok(st), Ok(tt)) => {
                if !same_name_set(ph_names(st), ph_names(tt)) {
                    r is Err && r->Err_0 is PlaceholderMismatch
                } else {
                    exists|ps: Seq<(Seq<char>, Seq<char>)>|
                        {
                            &&& froms_of(ps) == matched_views(files@, st)
                            &&& (forall|i: int|
                                0 <= i < ps.len() ==> planned_pair(
                                    st,
                                    ph_names(st),
                                    tt,
                                    #[trigger] ps[i],
                                ))
                            &&& match r {
                                Ok(out) => {
                                    &&& plans_view(out@) == changed_plans(ps)
                                    &&& unique_names(targets_of(changed_plans(ps)))
                                    &&& (force || existing_conflicts(
                                        changed_plans(ps),
                                        strings_view(existing@),
                                    ).len() == 0)
                                },
                                Err(e) => match e {
                                    RefactorError::DuplicateTargets { groups } => {
                                        &&& !unique_names(targets_of(changed_plans(ps)))
                                        &&& groups@.len() > 0
                                        &&& groups@.map(|i: int, g: DuplicateGroup| g.target@)
                                            == dup_targets(changed_plans(ps))
                                        &&& forall|k: int|
                                            0 <= k < groups@.len() ==> strings_view(
                                                #[trigger] groups@[k].sources@,
                                            ) == sources_for(
                                                changed_plans(ps),
                                                groups@[k].target@,
                                            )
                                    },
                                    RefactorError::ExistingTargets { pairs } => {
                                        &&& unique_names(targets_of(changed_plans(ps)))
                                        &&& !force
                                        &&& pairs_view(pairs@) == existing_conflicts(
                                            changed_plans(ps),
                                            strings_view(existing@),
                                        )
                                        &&& pairs@.len() > 0
                                    },
                                    _ => false,
                                },
                            }
                        }
                }
            },
            (Err(se), _) => r is Err && match r->Err_0 {
                RefactorError::Syntax(pe) => pe@ == se,
                _ => false,
            },
            (Ok(_), Err(te)) => r is Err && match r->Err_0 {
                RefactorError::Syntax(pe) => pe@ == te,
                _ => false,
            },
        },
        files@.len() == 0 && r is Ok ==> r->Ok_0@.len() == 0,
{
    let sp = match compile_pattern(from) {
        Ok(p) => p,
        Err(e) => {
            return Err(e);
        },
    };
    let tp = match compile_pattern(to) {
        Ok(p) => p,
        Err(e) => {
            return Err(e);
        },
    };
    let missing_in_target = missing_names(&sp, &tp);
    let missing_in_source = missing_names(&tp, &sp);
    proof {
        lemma_names_not_in_empty(sp.names(), tp.names());
        lemma_names_not_in_empty(tp.names(), sp.names());
    }
    if missing_in_target.len() > 0 || missing_in_source.len() > 0 {
        return Err(
            RefactorError::PlaceholderMismatch {
                source_names: placeholder_names(&sp),
                target_names: placeholder_names(&tp),
                missing_in_target,
                missing_in_source,
            },
        );
    }
    let plans = match build_rename_plans(files, &sp, &tp) {
        Ok(plans) => plans,
        Err(e) => {
            return Err(e);
        },
    };
    let changed = drop_noops(&plans);
    let ghost ps = plans_view(plans@);
    proof {
        assert(ph_names(sp.toks()) == sp.names());
    }
    match check_for_duplicates_in_plans(&changed) {
        Ok(_) => {},
        Err(e) => {
            proof {
                // a duplicate-target report is never empty: a
                // non-unique batch has a colliding destination
                lemma_dup_targets_iff(changed_plans(ps));
            }
            return Err(e);
        },
    }
    if !force {
        match check_existing_target_paths(&changed, existing) {
            Ok(_) => {},
            Err(e) => {
                return Err(e);
            },
        }
    }
    proof {
        if files@.len() == 0 {
            assert(matched_views(files@, sp.toks()) =~= Seq::<Seq<char>>::empty());
            assert(froms_of(ps).len() == 0);
            assert(ps.len() == 0);
            assert(changed_plans(ps) =~= Seq::<(Seq<char>, Seq<char>)>::empty());
        }
    }
    Ok(changed)
}

} // verus!
