use vstd::prelude::*;
use crate::bundle::{texts, names_of, Application, Bundle};

verus! {

/// How per-application work is run.
#[derive(PartialEq, Eq, Structural)]
pub enum Policy {
    /// One application at a time, in the bundle's order.
    Serial,
    /// A pool of the given number of workers.
    Parallel(usize),
}

/// A configuration that cannot be run safely.
pub enum ConfigError {
    /// Pruning the build cache after each unit of work was asked for under a
    /// parallel policy, where one worker's prune could evict what another
    /// worker still uses.
    PruneNeedsSerial,
}

/// The policy for a run: serial when asked, else a pool of the available
/// hardware parallelism (at least one worker).
pub fn choose_policy(serial: bool, available: usize) -> (r: Policy)
    ensures
        serial ==> r == Policy::Serial,
        !serial ==> r == Policy::Parallel(if available == 0 { 1 } else { available }),
{
    if serial {
        Policy::Serial
    } else if available == 0 {
        Policy::Parallel(1)
    } else {
        Policy::Parallel(available)
    }
}

impl Policy {
    /// The number of workers the policy runs.
    pub fn workers(&self) -> (r: usize)
        ensures
            *self == Policy::Serial ==> r == 1,
            self matches Policy::Parallel(n) ==> r == n,
    {
        match self {
            Policy::Serial => 1,
            Policy::Parallel(n) => *n,
        }
    }
}

/// Checks that pruning is only asked for under the serial policy.
pub fn check_prune(policy: &Policy, prune: bool) -> (r: Result<(), ConfigError>)
    ensures
        r is Err <==> (prune && *policy is Parallel),
{
    if prune {
        match policy {
            Policy::Parallel(_) => Err(ConfigError::PruneNeedsSerial),
            Policy::Serial => Ok(()),
        }
    } else {
        Ok(())
    }
}

/// A validated run: the policy, whether to prune after each unit of work,
/// and the applications to dispatch, in the bundle's order.
pub struct RunPlan {
    pub policy: Policy,
    pub prune: bool,
    pub apps: Vec<String>,
}

impl Bundle {
    /// Plans a run over every application of the bundle. The configuration is
    /// validated first: pruning under a parallel policy yields no plan, so no
    /// unit of work is ever dispatched for it.
    pub fn plan_run(&self, policy: Policy, prune: bool) -> (r: Result<RunPlan, ConfigError>)
        ensures
            r is Err <==> (prune && policy is Parallel),
            r matches Ok(p) ==> p.policy == policy && p.prune == prune && texts(p.apps@)
                == names_of(self.applications@),
    {
        match check_prune(&policy, prune) {
            Err(e) => Err(e),
            Ok(()) => Ok(RunPlan { policy, prune, apps: self.app_names() }),
        }
    }
}

/// Which collaborator reported a failure.
#[derive(Clone, Copy, PartialEq, Eq, Structural)]
pub enum WorkErrorKind {
    Build,
    Publish,
    Promote,
    Lookup,
}

/// A failure of one application's unit of work, tagged with its name.
pub struct WorkError {
    pub app: String,
    pub kind: WorkErrorKind,
    pub message: String,
}

impl WorkError {
    /// A copy of the error.
    pub fn duplicate(&self) -> (r: WorkError)
        ensures
            r == *self,
    {
        WorkError { app: self.app.clone(), kind: self.kind, message: self.message.clone() }
    }
}

/// What one application's unit of work came to: the charm reference it
/// resolved, or its failure.
pub struct Outcome {
    pub app: String,
    pub result: Result<String, WorkError>,
}

/// The application names of a sequence of outcomes.
pub open spec fn outcome_names(outs: Seq<Outcome>) -> Seq<Seq<char>> {
    outs.map_values(|o: Outcome| o.app@)
}

/// Some unit of work failed.
pub open spec fn has_error(outs: Seq<Outcome>) -> bool {
    exists|i: int| 0 <= i < outs.len() && (#[trigger] outs[i]).result is Err
}

/// `i` is the position of the first failed outcome.
pub open spec fn is_first_error(outs: Seq<Outcome>, i: int) -> bool {
    &&& 0 <= i < outs.len()
    &&& outs[i].result is Err
    &&& forall|k: int| 0 <= k < i ==> (#[trigger] outs[k]).result is Ok
}

/// Some outcome is for the application named `n`.
pub open spec fn has_outcome(outs: Seq<Outcome>, n: Seq<char>) -> bool {
    exists|j: int| 0 <= j < outs.len() && (#[trigger] outs[j]).app@ == n
}

/// An application with its outcome folded in: a resolved reference
/// replaces its charm; without an outcome it is unchanged.
pub open spec fn applied(a: Application, outs: Seq<Outcome>) -> Application {
    if has_outcome(outs, a.name@) {
        let j = choose|j: int| 0 <= j < outs.len() && (#[trigger] outs[j]).app@ == a.name@;
        match outs[j].result {
            Ok(c) => Application { charm: Some(c), ..a },
            Err(_) => a,
        }
    } else {
        a
    }
}

/// The applications with the outcomes folded in, keyed by name.
pub open spec fn merged_apps(apps: Seq<Application>, outs: Seq<Outcome>) -> Seq<Application> {
    apps.map_values(|a: Application| applied(a, outs))
}

/// Where outcome names are unique, the outcome that `applied` picks for a
/// name is the one at its position.
proof fn lemma_unique_outcome(outs: Seq<Outcome>, j: int)
    requires
        outcome_names(outs).no_duplicates(),
        0 <= j < outs.len(),
    ensures
        (choose|k: int| 0 <= k < outs.len() && (#[trigger] outs[k]).app@ == outs[j].app@) == j,
{
    let k = choose|k: int| 0 <= k < outs.len() && (#[trigger] outs[k]).app@ == outs[j].app@;
    assert(outcome_names(outs)[k] == outcome_names(outs)[j]);
}

impl Bundle {
    /// Folds the outcomes of a run back into the bundle, keyed by application
    /// name: each resolved reference becomes its application's charm. When
    /// any unit of work failed, the first failure is returned and the bundle
    /// is left as it was.
    pub fn apply_outcomes(&mut self, outcomes: &[Outcome]) -> (r: Result<(), WorkError>)
        requires
            outcome_names(outcomes@).no_duplicates(),
        ensures
            r is Err <==> has_error(outcomes@),
            r matches Err(e) ==> exists|i: int|
                is_first_error(outcomes@, i) && outcomes@[i].result == Err::<String, WorkError>(e),
            r is Err ==> *final(self) == *old(self),
            r is Ok ==> final(self).applications@ == merged_apps(
                old(self).applications@,
                outcomes@,
            ),
            final(self).relations == old(self).relations,
            final(self).name == old(self).name,
            names_of(final(self).applications@) == names_of(old(self).applications@),
    {
        let ghost outs = outcomes@;
        let mut i: usize = 0;
        while i < outcomes.len()
            invariant
                outcomes@ == outs,
                0 <= i <= outs.len(),
                forall|k: int| 0 <= k < i ==> (#[trigger] outs[k]).result is Ok,
            decreases outcomes.len() - i,
        {
            match &outcomes[i].result {
                Err(e) => {
                    assert(is_first_error(outs, i as int));
                    assert(has_error(outs));
                    return Err(e.duplicate());
                },
                Ok(_) => {},
            }
            i = i + 1;
        }
        assert(!has_error(outs));
        let mut rest: Vec<Application> = Vec::new();
        std::mem::swap(&mut rest, &mut self.applications);
        let ghost orig = rest@;
        let ghost mut done: Seq<Application> = Seq::empty();
        let mut merged: Vec<Application> = Vec::new();
        assert(orig == done + rest@);
        while rest.len() > 0
            invariant
                orig == done + rest@,
                outcomes@ == outs,
                outcome_names(outs).no_duplicates(),
                !has_error(outs),
                merged@ == merged_apps(done, outs),
                names_of(merged@) == names_of(done),
            decreases rest.len(),
        {
            let mut a = rest.remove(0);
            let ghost a0 = a;
            let mut j: usize = 0;
            while j < outcomes.len()
                invariant
                    outcomes@ == outs,
                    0 <= j <= outs.len(),
                    forall|k: int| 0 <= k < j ==> (#[trigger] outs[k]).app@ != a.name@,
                ensures
                    j < outs.len() ==> outs[j as int].app@ == a.name@,
                    forall|k: int| 0 <= k < j ==> (#[trigger] outs[k]).app@ != a.name@,
                decreases outcomes.len() - j,
            {
                if outcomes[j].app == a.name {
                    break;
                }
                j = j + 1;
            }
            if j < outcomes.len() {
                proof {
                    lemma_unique_outcome(outs, j as int);
                }
                match &outcomes[j].result {
                    Ok(c) => {
                        a.charm = Some(c.clone());
                    },
                    Err(_) => {
                        assert(has_error(outs));
                    },
                }
            } else {
                assert(!has_outcome(outs, a0.name@));
            }
            assert(a == applied(a0, outs));
            proof {
                assert(merged_apps(done.push(a0), outs) =~= merged_apps(done, outs).push(a));
                assert(names_of(merged@.push(a)) =~= names_of(done.push(a0)));
                assert(orig == done.push(a0) + rest@);
                done = done.push(a0);
            }
            merged.push(a);
        }
        assert(done == orig);
        self.applications = merged;
        Ok(())
    }
}

/// Merging is independent of the order in which outcomes arrive: two runs
/// that produced the same outcomes, one per application, in any order, fail
/// alike, and where they succeed leave the same applications.
pub proof fn lemma_merge_order_free(apps: Seq<Application>, first: Seq<Outcome>, second: Seq<Outcome>)
    requires
        outcome_names(first).no_duplicates(),
        outcome_names(second).no_duplicates(),
        first.to_multiset() == second.to_multiset(),
    ensures
        has_error(first) == has_error(second),
        merged_apps(apps, first) == merged_apps(apps, second),
{
    first.to_multiset_ensures();
    second.to_multiset_ensures();
    assert forall|o: Outcome| first.contains(o) <==> second.contains(o) by {
        assert(first.to_multiset().count(o) == second.to_multiset().count(o));
        assert(first.contains(o) <==> first.to_multiset().count(o) > 0);
        assert(second.contains(o) <==> second.to_multiset().count(o) > 0);
    }
    if has_error(first) {
        let i = choose|i: int| 0 <= i < first.len() && (#[trigger] first[i]).result is Err;
        assert(first.contains(first[i]));
        let k = choose|k: int| 0 <= k < second.len() && second[k] == first[i];
        assert(second[k].result is Err);
    }
    if has_error(second) {
        let i = choose|i: int| 0 <= i < second.len() && (#[trigger] second[i]).result is Err;
        assert(second.contains(second[i]));
        let k = choose|k: int| 0 <= k < first.len() && first[k] == second[i];
        assert(first[k].result is Err);
    }
    assert forall|i: int| 0 <= i < apps.len() implies applied(apps[i], first) == applied(
        apps[i],
        second,
    ) by {
        let a = apps[i];
        if has_outcome(first, a.name@) {
            let j = choose|j: int| 0 <= j < first.len() && (#[trigger] first[j]).app@ == a.name@;
            assert(first.contains(first[j]));
            let k = choose|k: int| 0 <= k < second.len() && second[k] == first[j];
            assert(second[k].app@ == a.name@);
            lemma_unique_outcome(first, j);
            lemma_unique_outcome(second, k);
        } else if has_outcome(second, a.name@) {
            let k = choose|k: int| 0 <= k < second.len() && (#[trigger] second[k]).app@ == a.name@;
            assert(second.contains(second[k]));
            let j = choose|j: int| 0 <= j < first.len() && first[j] == second[k];
            assert(first[j].app@ == a.name@);
        }
    }
    assert(merged_apps(apps, first) =~= merged_apps(apps, second));
}

} // verus!
