//! The journaled executor's core: the per-batch state machine that
//! tracks the applied prefix and the remaining suffix, the inverse
//! plan used by rollback, and an in-memory directory model against
//! which the executor's guarantees are stated and proved.

use vstd::prelude::*;

use crate::error::CliError;
use crate::planner::RenamePlan;
use crate::planner::plans_view;
use crate::planner::strings_view;
use crate::template::unique_names;
use crate::text::str_eq;

verus! {

/// How a rename is physically performed.
#[derive(Clone, Copy, Debug, PartialEq, Eq, Structural)]
pub enum RenameMethod {
    /// Through the version-control tool's move subcommand.
    Git,
    /// Through a plain filesystem rename.
    Fs,
}

/// Picks the rename method from the two explicit flags and the
/// detected working-tree state: explicit flags win, absence of both
/// defers to detection.
pub fn resolve_method(git: bool, no_git: bool, in_git: bool) -> (r: Result<RenameMethod, CliError>)
    ensures
        git && in_git ==> r is Ok && r->Ok_0 == RenameMethod::Git,
        git && !in_git ==> r is Err && r->Err_0.code == 5,
        !git && no_git ==> r is Ok && r->Ok_0 == RenameMethod::Fs,
        !git && !no_git ==> r is Ok && r->Ok_0 == (if in_git {
            RenameMethod::Git
        } else {
            RenameMethod::Fs
        }),
{
    if git {
        if !in_git {
            return Err(
                CliError::new(
                    5,
                    "Error: Not in a git repository\n\nUse --no-git to rename with regular mv, or initialize a git repo first.".to_owned(),
                ),
            );
        }
        return Ok(RenameMethod::Git);
    }
    if no_git {
        return Ok(RenameMethod::Fs);
    }
    if in_git {
        Ok(RenameMethod::Git)
    } else {
        Ok(RenameMethod::Fs)
    }
}

/// The inverse of a batch: entry order reversed and each entry's
/// direction swapped, so that replaying it undoes the batch.
pub open spec fn invert_spec(pv: Seq<(Seq<char>, Seq<char>)>) -> Seq<(Seq<char>, Seq<char>)> {
    Seq::new(pv.len(), |i: int| (pv[pv.len() - 1 - i].1, pv[pv.len() - 1 - i].0))
}

/// Builds the inverse plan of a batch.
pub fn invert_plans(plans: &Vec<RenamePlan>) -> (r: Vec<RenamePlan>)
    ensures
        plans_view(r@) == invert_spec(plans_view(plans@)),
{
    let n: usize = plans.len();
    let mut out: Vec<RenamePlan> = Vec::new();
    let mut i: usize = 0;
    while i < n
        invariant
            n == plans@.len(),
            i <= n,
            out@.len() == i,
            plans_view(out@) =~= invert_spec(plans_view(plans@)).take(i as int),
        decreases n - i,
    {
        let ghost before = out@;
        out.push(
            RenamePlan {
                from: plans[n - 1 - i].to.clone(),
                to: plans[n - 1 - i].from.clone(),
            },
        );
        proof {
            assert(out@.drop_last() =~= before);
            assert(plans_view(out@)[i as int] == (plans@[n - 1 - i]@.1, plans@[n - 1 - i]@.0));
            assert(plans_view(out@) =~= invert_spec(plans_view(plans@)).take(i + 1));
        }
        i = i + 1;
    }
    proof {
        assert(plans_view(out@) =~= invert_spec(plans_view(plans@)));
    }
    out
}

/// One batch moving through the executor: `Planned` is the fresh
/// state, recording outcomes walks it forward, and it ends `Succeeded`
/// or `PartiallyFailed`. The applied prefix and the untouched suffix
/// are what the two recovery journals persist.
#[derive(Debug)]
pub struct Execution {
    plans: Vec<RenamePlan>,
    applied: usize,
    failure: Option<String>,
}

impl Execution {
    /// The batch under execution.
    pub closed spec fn pv(&self) -> Seq<(Seq<char>, Seq<char>)> {
        plans_view(self.plans@)
    }

    /// How many leading entries have been applied.
    pub closed spec fn applied_n(&self) -> int {
        self.applied as int
    }

    /// Whether an entry has failed; no further entry is attempted.
    pub closed spec fn failed(&self) -> bool {
        self.failure is Some
    }

    /// The error text of the failed entry.
    pub closed spec fn failure_view(&self) -> Seq<char> {
        self.failure->0@
    }

    /// The state machine's invariant: the applied prefix never passes
    /// the end, and a failed entry is within the batch.
    pub open spec fn wf(&self) -> bool {
        &&& self.applied_n() <= self.pv().len()
        &&& self.failed() ==> self.applied_n() < self.pv().len()
    }

    /// The batch succeeded as a whole.
    pub open spec fn complete(&self) -> bool {
        !self.failed() && self.applied_n() == self.pv().len()
    }

    /// A fresh execution over a batch.
    pub fn new(plans: Vec<RenamePlan>) -> (r: Execution)
        ensures
            r.wf(),
            r.pv() == plans_view(plans@),
            r.applied_n() == 0,
            !r.failed(),
    {
        Execution { plans, applied: 0, failure: None }
    }

    /// The next entry to attempt, in strict order; `None` once the
    /// batch has succeeded or failed.
    pub fn current(&self) -> (r: Option<&RenamePlan>)
        requires
            self.wf(),
        ensures
            match r {
                Some(p) => !self.failed() && self.applied_n() < self.pv().len() && p@
                    == self.pv()[self.applied_n()],
                None => self.failed() || self.applied_n() == self.pv().len(),
            },
    {
        if self.failure.is_some() {
            return None;
        }
        if self.applied < self.plans.len() {
            Some(&self.plans[self.applied])
        } else {
            None
        }
    }

    /// Records that the current entry was applied.
    pub fn record_success(&mut self)
        requires
            old(self).wf(),
            !old(self).failed(),
            old(self).applied_n() < old(self).pv().len(),
        ensures
            final(self).wf(),
            final(self).pv() == old(self).pv(),
            final(self).applied_n() == old(self).applied_n() + 1,
            !final(self).failed(),
    {
        let n = self.plans.len();
        proof {
            assert(self.applied < n);
        }
        self.applied = self.applied + 1;
    }

    /// Records that the current entry failed: execution stops here,
    /// with everything at and after this entry untouched.
    pub fn record_failure(&mut self, error: String)
        requires
            old(self).wf(),
            !old(self).failed(),
            old(self).applied_n() < old(self).pv().len(),
        ensures
            final(self).wf(),
            final(self).pv() == old(self).pv(),
            final(self).applied_n() == old(self).applied_n(),
            final(self).failed(),
            final(self).failure_view() == error@,
    {
        self.failure = Some(error);
    }

    /// The applied prefix, in application order: the rollback
    /// journal's content.
    pub fn applied_plans(&self) -> (r: Vec<RenamePlan>)
        requires
            self.wf(),
        ensures
            plans_view(r@) == self.pv().take(self.applied_n()),
    {
        let mut out: Vec<RenamePlan> = Vec::new();
        let mut i: usize = 0;
        while i < self.applied
            invariant
                self.wf(),
                i <= self.applied,
                out@.len() == i,
                forall|k: int| 0 <= k < i ==> plans_view(out@)[k] == self.pv()[k],
            decreases self.applied - i,
        {
            proof {
                assert(self.pv()[i as int] == self.plans@[i as int]@);
            }
            let ghost before = out@;
            out.push(self.plans[i].duplicate());
            proof {
                assert(out@.drop_last() =~= before);
                assert(forall|k: int| 0 <= k < i ==> plans_view(out@)[k] == plans_view(before)[k]);
                assert(plans_view(out@)[i as int] == self.pv()[i as int]);
            }
            i = i + 1;
        }
        proof {
            assert(plans_view(out@) =~= self.pv().take(self.applied_n()));
        }
        out
    }

    /// The suffix never attempted, the failed entry first: the retry
    /// journal's content.
    pub fn remaining_plans(&self) -> (r: Vec<RenamePlan>)
        requires
            self.wf(),
        ensures
            plans_view(r@) == self.pv().skip(self.applied_n()),
    {
        let n: usize = self.plans.len();
        let mut out: Vec<RenamePlan> = Vec::new();
        let mut i: usize = self.applied;
        while i < n
            invariant
                self.wf(),
                n == self.pv().len(),
                self.applied <= i <= n,
                out@.len() == i - self.applied,
                plans_view(out@) =~= self.pv().subrange(self.applied_n(), i as int),
            decreases n - i,
        {
            proof {
                assert(self.pv()[i as int] == self.plans@[i as int]@);
            }
            let ghost before = out@;
            out.push(self.plans[i].duplicate());
            proof {
                assert(out@.drop_last() =~= before);
                assert(plans_view(out@)[i - self.applied] == self.pv()[i as int]);
                assert(plans_view(out@) =~= self.pv().subrange(self.applied_n(), i + 1));
            }
            i = i + 1;
        }
        proof {
            assert(plans_view(out@) =~= self.pv().skip(self.applied_n()));
        }
        out
    }

    /// How many entries were applied.
    pub fn applied_count(&self) -> (r: usize)
        ensures
            r == self.applied_n(),
    {
        self.applied
    }

    /// Whether the whole batch was applied.
    pub fn is_complete(&self) -> (r: bool)
        ensures
            r == self.complete(),
    {
        self.failure.is_none() && self.applied == self.plans.len()
    }

    /// The error text of the failed entry, if one failed.
    pub fn failure_message(&self) -> (r: Option<&String>)
        ensures
            match r {
                Some(m) => self.failed() && m@ == self.failure_view(),
                None => !self.failed(),
            },
    {
        match &self.failure {
            Some(m) => Some(m),
            None => None,
        }
    }
}

/// The set of names a string list holds.
pub open spec fn seq_set(ss: Seq<Seq<char>>) -> Set<Seq<char>> {
    Set::new(|n: Seq<char>| ss.contains(n))
}

/// Removing position `i` from a duplicate-free list removes exactly
/// that name.
proof fn lemma_seq_remove_unique(ss: Seq<Seq<char>>, i: int)
    requires
        unique_names(ss),
        0 <= i < ss.len(),
    ensures
        unique_names(ss.remove(i)),
        forall|n: Seq<char>| ss.remove(i).contains(n) <==> (ss.contains(n) && n != ss[i]),
{
    let r = ss.remove(i);
    assert forall|a: int, b: int| 0 <= a < b < r.len() implies r[a] != r[b] by {
        assert(r[a] == (if a < i { ss[a] } else { ss[a + 1] }));
        assert(r[b] == (if b < i { ss[b] } else { ss[b + 1] }));
    }
    assert forall|n: Seq<char>| r.contains(n) implies (ss.contains(n) && n != ss[i]) by {
        let k = choose|k: int| 0 <= k < r.len() && r[k] == n;
        if k < i {
            assert(ss[k] == n);
        } else {
            assert(ss[k + 1] == n);
        }
    }
    assert forall|n: Seq<char>| ss.contains(n) && n != ss[i] implies r.contains(n) by {
        let k = choose|k: int| 0 <= k < ss.len() && ss[k] == n;
        if k < i {
            assert(r[k] == n);
        } else {
            assert(k > i);
            assert(r[k - 1] == n);
        }
    }
}

/// The in-memory model of the working directory: the set of filenames
/// that exist. The executor's guarantees are stated against this
/// model; the raw backend performs the same removal and insertion on
/// disk.
#[derive(Debug)]
pub struct Directory {
    files: Vec<String>,
}

impl Directory {
    /// The names held, without duplicates.
    pub closed spec fn names(&self) -> Seq<Seq<char>> {
        strings_view(self.files@)
    }

    /// No name is held twice.
    pub open spec fn wf(&self) -> bool {
        unique_names(self.names())
    }

    /// A directory holding the given names, duplicates dropped.
    pub fn new(files: Vec<String>) -> (r: Directory)
        ensures
            r.wf(),
            r@ == seq_set(strings_view(files@)),
    {
        let n: usize = files.len();
        let mut held: Vec<String> = Vec::new();
        let mut i: usize = 0;
        while i < n
            invariant
                n == files@.len(),
                i <= n,
                unique_names(strings_view(held@)),
                seq_set(strings_view(held@)) =~= seq_set(strings_view(files@.take(i as int))),
            decreases n - i,
        {
            let ghost pre_take = strings_view(files@.take(i as int));
            let ghost tv = strings_view(files@.take(i + 1));
            proof {
                assert(tv.drop_last() =~= pre_take);
                assert(tv.last() == files@[i as int]@);
                // a name is in the longer prefix exactly when it is in
                // the shorter one or is the new candidate
                assert forall|m: Seq<char>|
                    tv.contains(m) <==> (pre_take.contains(m) || m == files@[i as int]@) by {
                    if tv.contains(m) {
                        let k = choose|k: int| 0 <= k < tv.len() && tv[k] == m;
                        if k < tv.len() - 1 {
                            assert(pre_take[k] == m);
                        }
                    }
                    if pre_take.contains(m) {
                        let k = choose|k: int| 0 <= k < pre_take.len() && pre_take[k] == m;
                        assert(tv[k] == m);
                    }
                    if m == files@[i as int]@ {
                        assert(tv[tv.len() - 1] == m);
                    }
                }
            }
            let ghost before = held@;
            if !crate::planner::vec_contains_string(&held, files[i].as_str()) {
                held.push(files[i].clone());
                proof {
                    assert(strings_view(held@).drop_last() =~= strings_view(before));
                    assert(strings_view(held@).last() == files@[i as int]@);
                    assert forall|a: int, b: int|
                        0 <= a < b < strings_view(held@).len() implies strings_view(held@)[a]
                        != strings_view(held@)[b] by {
                        if b < strings_view(held@).len() - 1 {
                            assert(strings_view(before)[a] == strings_view(held@)[a]);
                            assert(strings_view(before)[b] == strings_view(held@)[b]);
                        } else {
                            assert(strings_view(before)[a] == strings_view(held@)[a]);
                            assert(strings_view(before).contains(strings_view(held@)[a]));
                        }
                    }
                    assert forall|m: Seq<char>|
                        strings_view(held@).contains(m) <==> (strings_view(before).contains(m)
                            || m == files@[i as int]@) by {
                        if strings_view(held@).contains(m) {
                            let k = choose|k: int|
                                0 <= k < strings_view(held@).len() && strings_view(held@)[k] == m;
                            if k < strings_view(before).len() {
                                assert(strings_view(before)[k] == m);
                            }
                        }
                        if strings_view(before).contains(m) {
                            let k = choose|k: int|
                                0 <= k < strings_view(before).len() && strings_view(before)[k]
                                    == m;
                            assert(strings_view(held@)[k] == m);
                        }
                        if m == files@[i as int]@ {
                            assert(strings_view(held@)[strings_view(held@).len() - 1] == m);
                        }
                    }
                    assert forall|m: Seq<char>|
                        seq_set(strings_view(held@)).contains(m) <==> seq_set(tv).contains(
                            m,
                        ) by {
                        assert(seq_set(strings_view(held@)).contains(m) == strings_view(
                            held@,
                        ).contains(m));
                        assert(seq_set(tv).contains(m) == tv.contains(m));
                        assert(seq_set(pre_take).contains(m) == pre_take.contains(m));
                        assert(seq_set(strings_view(before)).contains(m) == strings_view(
                            before,
                        ).contains(m));
                        assert(tv.contains(m) <==> (pre_take.contains(m) || m == files@[
                            i as int
                        ]@));
                        assert(seq_set(strings_view(before)).contains(m) == seq_set(
                            pre_take,
                        ).contains(m));
                    }
                    assert(seq_set(strings_view(held@)) =~= seq_set(tv));
                }
            } else {
                proof {
                    assert(strings_view(held@).contains(files@[i as int]@));
                    assert forall|m: Seq<char>|
                        seq_set(strings_view(held@)).contains(m) <==> seq_set(tv).contains(
                            m,
                        ) by {
                        assert(seq_set(strings_view(held@)).contains(m) == strings_view(
                            held@,
                        ).contains(m));
                        assert(seq_set(tv).contains(m) == tv.contains(m));
                        assert(seq_set(pre_take).contains(m) == pre_take.contains(m));
                        assert(tv.contains(m) <==> (pre_take.contains(m) || m == files@[
                            i as int
                        ]@));
                        assert(strings_view(held@).contains(m) == seq_set(pre_take).contains(m));
                    }
                    assert(seq_set(strings_view(held@)) =~= seq_set(tv));
                }
            }
            i = i + 1;
        }
        proof {
            assert(files@.take(n as int) =~= files@);
        }
        Directory { files: held }
    }

    /// The held names, as a list for planning and display.
    pub fn file_list(&self) -> (r: Vec<String>)
        ensures
            strings_view(r@) == self.names(),
    {
        let n: usize = self.files.len();
        let mut out: Vec<String> = Vec::new();
        let mut i: usize = 0;
        while i < n
            invariant
                n == self.files@.len(),
                i <= n,
                strings_view(out@) =~= self.names().take(i as int),
            decreases n - i,
        {
            let ghost before = out@;
            out.push(self.files[i].clone());
            proof {
                assert(strings_view(out@).drop_last() =~= strings_view(before));
                assert(strings_view(out@).last() == self.files@[i as int]@);
                assert(strings_view(out@) =~= self.names().take(i + 1));
            }
            i = i + 1;
        }
        proof {
            assert(self.names().take(n as int) =~= self.names());
        }
        out
    }

    /// Whether a name exists.
    pub fn contains_name(&self, name: &str) -> (r: bool)
        ensures
            r == self@.contains(name@),
    {
        crate::planner::vec_contains_string(&self.files, name)
    }

    /// The model move: the source must exist; it is removed and the
    /// destination inserted, silently replacing a destination that
    /// already exists, as the raw backend's rename does.
    pub fn rename_file(&mut self, from: &str, to: &str) -> (r: Result<(), String>)
        requires
            old(self).wf(),
        ensures
            final(self).wf(),
            old(self)@.contains(from@) ==> r is Ok && final(self)@ == rename_set(
                old(self)@,
                from@,
                to@,
            ),
            !old(self)@.contains(from@) ==> r is Err && final(self)@ == old(self)@
                && r->Err_0@ == "source file does not exist"@,
    {
        let n: usize = self.files.len();
        let mut idx: usize = 0;
        let mut found = false;
        while idx < n
            invariant_except_break
                !found,
            invariant
                n == self.files@.len(),
                idx <= n,
                forall|k: int| 0 <= k < idx ==> self.names()[k] != from@,
            ensures
                n == self.files@.len(),
                idx <= n,
                found ==> idx < n && self.names()[idx as int] == from@,
                !found ==> forall|k: int| 0 <= k < n ==> self.names()[k] != from@,
            decreases n - idx,
        {
            if str_eq(self.files[idx].as_str(), from) {
                found = true;
                break;
            }
            idx = idx + 1;
        }
        if !found {
            proof {
                if self@.contains(from@) {
                    let k = choose|k: int| 0 <= k < self.names().len() && self.names()[k] == from@;
                    assert(false);
                }
            }
            return Err("source file does not exist".to_owned());
        }
        let ghost before = self.names();
        let _removed = self.files.remove(idx);
        proof {
            assert(self.names() =~= before.remove(idx as int));
            lemma_seq_remove_unique(before, idx as int);
        }
        let ghost mid = self.names();
        if !crate::planner::vec_contains_string(&self.files, to) {
            let ghost pre = self.names();
            self.files.push(to.to_owned());
            proof {
                assert(self.names().drop_last() =~= pre);
                assert(self.names().last() == to@);
                assert forall|a: int, b: int|
                    0 <= a < b < self.names().len() implies self.names()[a] != self.names()[b] by {
                    if b < self.names().len() - 1 {
                        assert(pre[a] == self.names()[a]);
                        assert(pre[b] == self.names()[b]);
                    } else {
                        assert(pre[a] == self.names()[a]);
                        assert(pre.contains(self.names()[a]));
                    }
                }
                assert forall|m: Seq<char>|
                    self.names().contains(m) <==> (mid.contains(m) || m == to@) by {
                    if self.names().contains(m) {
                        let k = choose|k: int|
                            0 <= k < self.names().len() && self.names()[k] == m;
                        if k < mid.len() {
                            assert(mid[k] == m);
                        }
                    }
                    if mid.contains(m) {
                        let k = choose|k: int| 0 <= k < mid.len() && mid[k] == m;
                        assert(self.names()[k] == m);
                    }
                }
                assert forall|m: Seq<char>|
                    seq_set(self.names()).contains(m) <==> rename_set(
                        seq_set(before),
                        from@,
                        to@,
                    ).contains(m) by {
                    assert(seq_set(self.names()).contains(m) == self.names().contains(m));
                    assert(seq_set(before).contains(m) == before.contains(m));
                    assert(self.names().contains(m) <==> (mid.contains(m) || m == to@));
                    assert(mid.contains(m) <==> (before.contains(m) && m != before[idx as int]));
                }
                assert(seq_set(self.names()) =~= rename_set(seq_set(before), from@, to@));
            }
        } else {
            proof {
                assert(mid.contains(to@));
                assert forall|m: Seq<char>|
                    seq_set(self.names()).contains(m) <==> rename_set(
                        seq_set(before),
                        from@,
                        to@,
                    ).contains(m) by {
                    assert(seq_set(self.names()).contains(m) == mid.contains(m));
                    assert(seq_set(before).contains(m) == before.contains(m));
                    assert(mid.contains(m) <==> (before.contains(m) && m != before[idx as int]));
                    if m == to@ {
                        assert(mid.contains(m));
                    }
                }
                assert(seq_set(self.names()) =~= rename_set(seq_set(before), from@, to@));
            }
        }
        Ok(())
    }
}

impl View for Directory {
    type V = Set<Seq<char>>;

    open spec fn view(&self) -> Set<Seq<char>> {
        seq_set(self.names())
    }
}

/// One rename's effect on the name set: the source leaves, the
/// destination appears.
pub open spec fn rename_set(s: Set<Seq<char>>, from: Seq<char>, to: Seq<char>) -> Set<Seq<char>> {
    s.remove(from).insert(to)
}

/// A batch's effect on the name set, applied strictly in order.
pub open spec fn apply_all(s: Set<Seq<char>>, pv: Seq<(Seq<char>, Seq<char>)>) -> Set<Seq<char>>
    decreases pv.len(),
{
    if pv.len() == 0 {
        s
    } else {
        apply_all(rename_set(s, pv[0].0, pv[0].1), pv.drop_first())
    }
}

/// A non-conflicting batch: at each step the source exists, the
/// destination does not, and the entry is not a no-op.
pub open spec fn all_applicable(s: Set<Seq<char>>, pv: Seq<(Seq<char>, Seq<char>)>) -> bool
    decreases pv.len(),
{
    if pv.len() == 0 {
        true
    } else {
        s.contains(pv[0].0) && !s.contains(pv[0].1) && pv[0].0 != pv[0].1 && all_applicable(
            rename_set(s, pv[0].0, pv[0].1),
            pv.drop_first(),
        )
    }
}

/// Applying a batch unfolds from the back as well.
proof fn lemma_apply_all_push(
    s: Set<Seq<char>>,
    q: Seq<(Seq<char>, Seq<char>)>,
    e: (Seq<char>, Seq<char>),
)
    ensures
        apply_all(s, q.push(e)) == rename_set(apply_all(s, q), e.0, e.1),
    decreases q.len(),
{
    if q.len() == 0 {
        assert(q.push(e)[0] == e);
        assert(q.push(e).drop_first() =~= Seq::<(Seq<char>, Seq<char>)>::empty());
        assert(apply_all(s, q.push(e)) == apply_all(
            rename_set(s, e.0, e.1),
            q.push(e).drop_first(),
        ));
        assert(apply_all(rename_set(s, e.0, e.1), q.push(e).drop_first()) == rename_set(
            s,
            e.0,
            e.1,
        ));
        assert(apply_all(s, q) == s);
    } else {
        assert(q.push(e)[0] == q[0]);
        assert(q.push(e).drop_first() =~= q.drop_first().push(e));
        lemma_apply_all_push(rename_set(s, q[0].0, q[0].1), q.drop_first(), e);
        assert(apply_all(s, q.push(e)) == apply_all(
            rename_set(s, q[0].0, q[0].1),
            q.drop_first().push(e),
        ));
        assert(apply_all(s, q) == apply_all(rename_set(s, q[0].0, q[0].1), q.drop_first()));
    }
}

/// Applicability extends to one more entry that is applicable in the
/// resulting state.
proof fn lemma_all_applicable_push(
    s: Set<Seq<char>>,
    q: Seq<(Seq<char>, Seq<char>)>,
    e: (Seq<char>, Seq<char>),
)
    requires
        all_applicable(s, q),
        apply_all(s, q).contains(e.0),
        !apply_all(s, q).contains(e.1),
        e.0 != e.1,
    ensures
        all_applicable(s, q.push(e)),
    decreases q.len(),
{
    if q.len() == 0 {
        assert(q.push(e)[0] == e);
        assert(q.push(e).drop_first() =~= Seq::<(Seq<char>, Seq<char>)>::empty());
        assert(apply_all(s, q) == s);
        assert(all_applicable(rename_set(s, e.0, e.1), q.push(e).drop_first()));
        assert(all_applicable(s, q.push(e)));
    } else {
        assert(q.push(e)[0] == q[0]);
        assert(q.push(e).drop_first() =~= q.drop_first().push(e));
        assert(apply_all(s, q) == apply_all(rename_set(s, q[0].0, q[0].1), q.drop_first()));
        lemma_all_applicable_push(rename_set(s, q[0].0, q[0].1), q.drop_first(), e);
        assert(all_applicable(s, q.push(e)));
    }
}

/// Every entry of the batch found its source present at its own
/// step. This is the executor's stopping rule: the model backend,
/// like the raw rename, fails only on a missing source and silently
/// replaces an existing destination.
pub open spec fn sources_present(s: Set<Seq<char>>, pv: Seq<(Seq<char>, Seq<char>)>) -> bool
    decreases pv.len(),
{
    if pv.len() == 0 {
        true
    } else {
        s.contains(pv[0].0) && sources_present(
            rename_set(s, pv[0].0, pv[0].1),
            pv.drop_first(),
        )
    }
}

/// Source presence extends to one more entry whose source exists in
/// the resulting state.
proof fn lemma_sources_present_push(
    s: Set<Seq<char>>,
    q: Seq<(Seq<char>, Seq<char>)>,
    e: (Seq<char>, Seq<char>),
)
    requires
        sources_present(s, q),
        apply_all(s, q).contains(e.0),
    ensures
        sources_present(s, q.push(e)),
    decreases q.len(),
{
    if q.len() == 0 {
        assert(q.push(e)[0] == e);
        assert(q.push(e).drop_first() =~= Seq::<(Seq<char>, Seq<char>)>::empty());
        assert(apply_all(s, q) == s);
        assert(sources_present(rename_set(s, e.0, e.1), q.push(e).drop_first()));
    } else {
        assert(q.push(e)[0] == q[0]);
        assert(q.push(e).drop_first() =~= q.drop_first().push(e));
        assert(apply_all(s, q) == apply_all(rename_set(s, q[0].0, q[0].1), q.drop_first()));
        lemma_sources_present_push(rename_set(s, q[0].0, q[0].1), q.drop_first(), e);
    }
}

/// The rollback law: applying a non-conflicting batch and then its
/// inverse restores the original name set exactly, and the inverse is
/// itself non-conflicting on the state the batch left behind.
pub proof fn lemma_rollback_restores(s: Set<Seq<char>>, pv: Seq<(Seq<char>, Seq<char>)>)
    requires
        all_applicable(s, pv),
    ensures
        all_applicable(apply_all(s, pv), invert_spec(pv)),
        apply_all(apply_all(s, pv), invert_spec(pv)) == s,
    decreases pv.len(),
{
    if pv.len() == 0 {
        assert(invert_spec(pv) =~= Seq::<(Seq<char>, Seq<char>)>::empty());
    } else {
        let p = pv[0];
        let s1 = rename_set(s, p.0, p.1);
        lemma_rollback_restores(s1, pv.drop_first());
        let s2 = apply_all(s, pv);
        assert(s2 == apply_all(s1, pv.drop_first()));
        assert(invert_spec(pv) =~= invert_spec(pv.drop_first()).push((p.1, p.0)));
        lemma_apply_all_push(s2, invert_spec(pv.drop_first()), (p.1, p.0));
        // undoing the tail leaves the state right after the head
        assert(apply_all(s2, invert_spec(pv.drop_first())) == s1);
        // the head's inverse is applicable there and restores `s`
        assert(s1.contains(p.1));
        assert(!s1.contains(p.0));
        assert(rename_set(s1, p.1, p.0) =~= s);
        lemma_all_applicable_push(s2, invert_spec(pv.drop_first()), (p.1, p.0));
        assert(apply_all(s2, invert_spec(pv)) == rename_set(s1, p.1, p.0));
    }
}

/// A batch that passed the planner's checks is non-conflicting: with
/// pairwise-distinct sources that all exist, pairwise-distinct
/// destinations that do not, and no no-op entries, every step of the
/// batch finds its source present and its destination free.
pub proof fn lemma_checked_batch_applicable(s: Set<Seq<char>>, pv: Seq<(Seq<char>, Seq<char>)>)
    requires
        unique_names(crate::planner::froms_of(pv)),
        unique_names(crate::planner::targets_of(pv)),
        forall|i: int| 0 <= i < pv.len() ==> s.contains(#[trigger] pv[i].0),
        forall|i: int| 0 <= i < pv.len() ==> !s.contains(#[trigger] pv[i].1),
        forall|i: int| 0 <= i < pv.len() ==> (#[trigger] pv[i]).0 != pv[i].1,
    ensures
        all_applicable(s, pv),
    decreases pv.len(),
{
    if pv.len() > 0 {
        let p = pv[0];
        let s1 = rename_set(s, p.0, p.1);
        let rest = pv.drop_first();
        assert(forall|i: int| 0 <= i < rest.len() ==> rest[i] == pv[i + 1]);
        let fr = crate::planner::froms_of(pv);
        let tr = crate::planner::targets_of(pv);
        assert forall|i: int| 0 <= i < rest.len() implies s1.contains(#[trigger] rest[i].0) by {
            assert(fr[0] == p.0 && fr[i + 1] == rest[i].0);
            assert(rest[i].0 != p.0);
            assert(s.contains(pv[i + 1].0));
            assert(!s.contains(p.1));
            assert(rest[i].0 != p.1);
        }
        assert forall|i: int| 0 <= i < rest.len() implies !s1.contains(#[trigger] rest[i].1) by {
            assert(tr[0] == p.1 && tr[i + 1] == rest[i].1);
            assert(rest[i].1 != p.1);
            assert(!s.contains(pv[i + 1].1));
        }
        assert forall|a: int, b: int|
            0 <= a < b < rest.len() implies crate::planner::froms_of(rest)[a]
            != crate::planner::froms_of(rest)[b] by {
            assert(crate::planner::froms_of(rest)[a] == fr[a + 1]);
            assert(crate::planner::froms_of(rest)[b] == fr[b + 1]);
        }
        assert forall|a: int, b: int|
            0 <= a < b < rest.len() implies crate::planner::targets_of(rest)[a]
            != crate::planner::targets_of(rest)[b] by {
            assert(crate::planner::targets_of(rest)[a] == tr[a + 1]);
            assert(crate::planner::targets_of(rest)[b] == tr[b + 1]);
        }
        lemma_checked_batch_applicable(s1, rest);
    }
}

/// Duplicates a plan list.
pub fn copy_plans(plans: &Vec<RenamePlan>) -> (r: Vec<RenamePlan>)
    ensures
        plans_view(r@) == plans_view(plans@),
{
    let n: usize = plans.len();
    let mut out: Vec<RenamePlan> = Vec::new();
    let mut i: usize = 0;
    while i < n
        invariant
            n == plans@.len(),
            i <= n,
            out@.len() == i,
            plans_view(out@) =~= plans_view(plans@).take(i as int),
        decreases n - i,
    {
        let ghost before = out@;
        out.push(plans[i].duplicate());
        proof {
            assert(out@.drop_last() =~= before);
            assert(out@[i as int]@ == plans@[i as int]@);
            assert(plans_view(out@)[i as int] == plans_view(plans@)[i as int]);
            assert(plans_view(out@) =~= plans_view(plans@).take(i + 1));
        }
        i = i + 1;
    }
    proof {
        assert(plans_view(plans@).take(n as int) =~= plans_view(plans@));
    }
    out
}

/// Runs a batch against the directory model, strictly in order and
/// stopping at the first failure, exactly as the real executor walks
/// its backend. A non-conflicting batch runs to completion.
pub fn run_batch(dir: &mut Directory, plans: &Vec<RenamePlan>) -> (ex: Execution)
    requires
        old(dir).wf(),
    ensures
        final(dir).wf(),
        ex.wf(),
        ex.pv() == plans_view(plans@),
        final(dir)@ == apply_all(old(dir)@, plans_view(plans@).take(ex.applied_n())),
        !ex.failed() ==> ex.applied_n() == plans_view(plans@).len(),
        // the stop point is pinned: every applied entry found its
        // source, and on failure the stopped entry's source was absent
        sources_present(old(dir)@, plans_view(plans@).take(ex.applied_n())),
        ex.failed() ==> !apply_all(
            old(dir)@,
            plans_view(plans@).take(ex.applied_n()),
        ).contains(plans_view(plans@)[ex.applied_n()].0),
        all_applicable(old(dir)@, plans_view(plans@)) ==> ex.complete(),
{
    let ghost pv = plans_view(plans@);
    let mut ex = Execution::new(copy_plans(plans));
    proof {
        assert(pv.take(0) =~= Seq::<(Seq<char>, Seq<char>)>::empty());
        assert(apply_all(old(dir)@, pv.take(0)) == old(dir)@);
        assert(pv.skip(0) =~= pv);
    }
    loop
        invariant_except_break
            !ex.failed(),
        invariant
            dir.wf(),
            ex.wf(),
            ex.pv() == pv,
            pv == plans_view(plans@),
            dir@ == apply_all(old(dir)@, pv.take(ex.applied_n())),
            sources_present(old(dir)@, pv.take(ex.applied_n())),
            all_applicable(old(dir)@, pv) ==> all_applicable(dir@, pv.skip(ex.applied_n())),
        ensures
            dir.wf(),
            ex.wf(),
            ex.pv() == pv,
            dir@ == apply_all(old(dir)@, pv.take(ex.applied_n())),
            !ex.failed() ==> ex.applied_n() == pv.len(),
            sources_present(old(dir)@, pv.take(ex.applied_n())),
            ex.failed() ==> !apply_all(old(dir)@, pv.take(ex.applied_n())).contains(
                pv[ex.applied_n()].0,
            ),
            all_applicable(old(dir)@, pv) ==> ex.complete(),
        decreases pv.len() - ex.applied_n(),
    {
        let (from, to) = match ex.current() {
            Some(p) => (p.from.clone(), p.to.clone()),
            None => {
                proof {
                    if all_applicable(old(dir)@, pv) && ex.applied_n() < pv.len() {
                        assert(false);
                    }
                }
                break;
            },
        };
        let ghost i = ex.applied_n();
        proof {
            assert((from@, to@) == pv[i]);
        }
        match dir.rename_file(from.as_str(), to.as_str()) {
            Ok(_) => {
                ex.record_success();
                proof {
                    assert(pv.take(i + 1) =~= pv.take(i).push(pv[i]));
                    lemma_apply_all_push(old(dir)@, pv.take(i), pv[i]);
                    lemma_sources_present_push(old(dir)@, pv.take(i), pv[i]);
                    if all_applicable(old(dir)@, pv) {
                        assert(pv.skip(i)[0] == pv[i]);
                        assert(pv.skip(i).drop_first() =~= pv.skip(i + 1));
                    }
                }
            },
            Err(e) => {
                proof {
                    if all_applicable(old(dir)@, pv) {
                        assert(pv.skip(i)[0] == pv[i]);
                        assert(false);
                    }
                }
                ex.record_failure(e);
                break;
            },
        }
    }
    ex
}

/// Plans and executes a whole refactor against the directory model.
/// Any planning error leaves the directory untouched: planning is
/// all-or-nothing, and only execution may partially apply. The error
/// case analysis mirrors the planner's, over the directory's own
/// names, so a clean batch is owed an execution.
pub fn refactor_directory(dir: &mut Directory, from: &str, to: &str, force: bool) -> (r: Result<
    Execution,
    crate::planner::RefactorError,
>)
    requires
        old(dir).wf(),
    ensures
        final(dir).wf(),
        r is Err ==> final(dir)@ == old(dir)@,
        r is Ok ==> r->Ok_0.wf() && final(dir)@ == apply_all(
            old(dir)@,
            r->Ok_0.pv().take(r->Ok_0.applied_n()),
        ),
        match (crate::planner::compile_spec(from@), crate::planner::compile_spec(to@)) {
            (Ok(st), Ok(tt)) => {
                if !crate::planner::same_name_set(
                    crate::template::ph_names(st),
                    crate::template::ph_names(tt),
                ) {
                    r is Err && r->Err_0 is PlaceholderMismatch
                } else {
                    exists|ps: Seq<(Seq<char>, Seq<char>)>|
                        {
                            &&& crate::planner::froms_of(ps) == crate::planner::matched_names(
                                old(dir).names(),
                                st,
                            )
                            &&& (forall|i: int|
                                0 <= i < ps.len() ==> crate::planner::planned_pair(
                                    st,
                                    crate::template::ph_names(st),
                                    tt,
                                    #[trigger] ps[i],
                                ))
                            &&& match r {
                                Ok(ex) => {
                                    &&& ex.pv() == crate::planner::changed_plans(ps)
                                    &&& unique_names(
                                        crate::planner::targets_of(
                                            crate::planner::changed_plans(ps),
                                        ),
                                    )
                                    &&& (force || crate::planner::existing_conflicts(
                                        crate::planner::changed_plans(ps),
                                        old(dir).names(),
                                    ).len() == 0)
                                },
                                Err(e) => match e {
                                    crate::planner::RefactorError::DuplicateTargets {
                                        groups,
                                    } => {
                                        &&& !unique_names(
                                            crate::planner::targets_of(
                                                crate::planner::changed_plans(ps),
                                            ),
                                        )
                                        &&& groups@.len() > 0
                                        &&& groups@.map(
                                            |i: int, g: crate::planner::DuplicateGroup| g.target@,
                                        ) == crate::planner::dup_targets(
                                            crate::planner::changed_plans(ps),
                                        )
                                    },
                                    crate::planner::RefactorError::ExistingTargets { pairs } => {
                                        &&& unique_names(
                                            crate::planner::targets_of(
                                                crate::planner::changed_plans(ps),
                                            ),
                                        )
                                        &&& !force
                                        &&& crate::planner::pairs_view(pairs@)
                                            == crate::planner::existing_conflicts(
                                            crate::planner::changed_plans(ps),
                                            old(dir).names(),
                                        )
                                        &&& pairs@.len() > 0
                                    },
                                    _ => false,
                                },
                            }
                        }
                }
            },
            (Err(se), _) => r is Err && match r->Err_0 {
                crate::planner::RefactorError::Syntax(pe) => pe@ == se,
                _ => false,
            },
            (Ok(_), Err(te)) => r is Err && match r->Err_0 {
                crate::planner::RefactorError::Syntax(pe) => pe@ == te,
                _ => false,
            },
        },
{
    let files = dir.file_list();
    proof {
        match crate::planner::compile_spec(from@) {
            Ok(st) => {
                crate::planner::lemma_matched_views_names(files@, st);
            },
            Err(_) => {},
        }
    }
    let plans = match crate::planner::plan_refactor(&files, from, to, &files, force) {
        Ok(plans) => plans,
        Err(e) => {
            return Err(e);
        },
    };
    Ok(run_batch(dir, &plans))
}

} // verus!
