use vstd::prelude::*;
use crate::bundle::{texts, names_of, Application, Bundle};
use crate::subset::{ensure_subset, missing_from, SelectionError};
use crate::text::{chars_of, find_from, first_from, string_of};

verus! {

/// The parts of `key=value`: the text before the first `=`, and the text
/// after it if there is an `=`.
pub open spec fn key_value(s: Seq<char>) -> (Seq<char>, Option<Seq<char>>) {
    let k = first_from(s, '=', 0);
    if k >= s.len() {
        (s, None)
    } else {
        (s.subrange(0, k), Some(s.subrange(k + 1, s.len() as int)))
    }
}

/// Splits a `key=value` argument at its first `=`; without one, the whole
/// text is the key.
pub fn parse_key_val(s: &str) -> (r: (String, Option<String>))
    ensures
        r.0@ == key_value(s@).0,
        r.1 matches Some(v) ==> key_value(s@).1 == Some(v@),
        r.1 is None ==> key_value(s@).1 is None,
{
    let t = chars_of(s);
    let n = t.len();
    let k = find_from(&t, '=', 0);
    if k == n {
        (string_of(&t, 0, n), None)
    } else {
        (string_of(&t, 0, k), Some(string_of(&t, k + 1, n)))
    }
}

/// The texts of the keys of `key=value` pairs.
pub open spec fn pair_keys(v: Seq<(String, Option<String>)>) -> Seq<Seq<char>> {
    v.map_values(|p: (String, Option<String>)| p.0@)
}

/// Whether an application named `n` is a build target: every application is
/// when nothing is chosen, else the chosen ones.
pub open spec fn is_target(n: Seq<char>, chosen: Seq<Seq<char>>) -> bool {
    chosen.len() == 0 || chosen.contains(n)
}

/// The applications to build, in the bundle's order: all of them with no
/// selection, else those selected. Each is then resolved on its own.
pub open spec fn build_target_apps(apps: Seq<Application>, chosen: Seq<Seq<char>>) -> Seq<
    Application,
> {
    apps.filter(|a: Application| is_target(a.name@, chosen))
}

impl Bundle {
    /// The names of the applications to build for a selection of
    /// `name[=value]` arguments. Fails when a selected name is not an
    /// application, naming every such entry.
    pub fn build_targets(&self, selection: &[(String, Option<String>)]) -> (r: Result<
        Vec<String>,
        SelectionError,
    >)
        ensures
            r is Ok <==> missing_from(pair_keys(selection@), self.keys()).len() == 0,
            r matches Err(SelectionError::UnknownApps(m)) ==> texts(m@) == missing_from(
                pair_keys(selection@),
                self.keys(),
            ),
            r matches Ok(v) ==> texts(v@) == names_of(
                build_target_apps(self.applications@, pair_keys(selection@)),
            ),
            selection@.len() == 0 ==> (r matches Ok(v) && texts(v@) == names_of(
                self.applications@,
            )),
    {
        let mut keys: Vec<String> = Vec::new();
        let mut i: usize = 0;
        while i < selection.len()
            invariant
                0 <= i <= selection@.len(),
                texts(keys@) == pair_keys(selection@).subrange(0, i as int),
            decreases selection.len() - i,
        {
            keys.push(selection[i].0.clone());
            assert(pair_keys(selection@).subrange(0, i + 1) == pair_keys(selection@).subrange(
                0,
                i as int,
            ).push(selection@[i as int].0@));
            i = i + 1;
        }
        assert(pair_keys(selection@).subrange(0, i as int) == pair_keys(selection@));
        let names = self.app_names();
        match ensure_subset(keys.as_slice(), names.as_slice()) {
            Err(e) => {
                return Err(e);
            },
            Ok(()) => {},
        }
        let ghost chosen = pair_keys(selection@);
        let ghost pred = |a: Application| is_target(a.name@, chosen);
        let mut out: Vec<String> = Vec::new();
        let mut j: usize = 0;
        while j < self.applications.len()
            invariant
                0 <= j <= self.applications@.len(),
                chosen == pair_keys(selection@),
                texts(keys@) == chosen,
                pred == (|a: Application| is_target(a.name@, chosen)),
                texts(out@) == names_of(self.applications@.subrange(0, j as int).filter(pred)),
            decreases self.applications.len() - j,
        {
            let a = &self.applications[j];
            let take = keys.len() == 0 || crate::subset::contains_text(keys.as_slice(), &a.name);
            proof {
                let done = self.applications@.subrange(0, j as int);
                assert(self.applications@.subrange(0, j + 1) == done.push(*a));
                done.lemma_filter_push(*a, pred);
            }
            if take {
                out.push(a.name.clone());
                proof {
                    let f = self.applications@.subrange(0, j as int).filter(pred);
                    assert(names_of(f.push(*a)) =~= names_of(f).push(a.name@));
                }
            }
            j = j + 1;
        }
        assert(self.applications@.subrange(0, j as int) == self.applications@);
        proof {
            if chosen.len() == 0 {
                crate::subset::lemma_filter_all(self.applications@, pred);
            }
        }
        Ok(out)
    }
}

/// One step of deploying a bundle.
#[derive(PartialEq, Eq, Structural)]
pub enum DeployStep {
    /// Build the charms that the selection names.
    Build,
    /// Upgrade each deployed charm in place, and stop there.
    UpgradeCharms,
    /// Remove the bundle's applications first.
    Remove,
    /// Wait up to this many seconds for the model to settle.
    Wait(u32),
    /// Deploy the bundle.
    Deploy,
}

/// The steps of a deploy: build if asked; then either upgrade the charms in
/// place, or remove the applications if asked, wait if a wait is set, and
/// deploy.
pub open spec fn deploy_plan(build: bool, upgrade_charms: bool, recreate: bool, wait: u32) -> Seq<
    DeployStep,
> {
    let first = if build {
        seq![DeployStep::Build]
    } else {
        Seq::empty()
    };
    if upgrade_charms {
        first.push(DeployStep::UpgradeCharms)
    } else {
        let removed = if recreate {
            first.push(DeployStep::Remove)
        } else {
            first
        };
        let waited = if wait > 0 {
            removed.push(DeployStep::Wait(wait))
        } else {
            removed
        };
        waited.push(DeployStep::Deploy)
    }
}

/// The ordered steps of a deploy.
pub fn deploy_steps(build: bool, upgrade_charms: bool, recreate: bool, wait: u32) -> (r: Vec<
    DeployStep,
>)
    ensures
        r@ == deploy_plan(build, upgrade_charms, recreate, wait),
{
    let mut steps: Vec<DeployStep> = Vec::new();
    if build {
        steps.push(DeployStep::Build);
    }
    if upgrade_charms {
        steps.push(DeployStep::UpgradeCharms);
        assert(steps@ =~= deploy_plan(build, upgrade_charms, recreate, wait));
        return steps;
    }
    if recreate {
        steps.push(DeployStep::Remove);
    }
    if wait > 0 {
        steps.push(DeployStep::Wait(wait));
    }
    steps.push(DeployStep::Deploy);
    assert(steps@ =~= deploy_plan(build, upgrade_charms, recreate, wait));
    steps
}

} // verus!
