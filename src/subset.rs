use vstd::prelude::*;
use crate::bundle::{texts, app_of_endpoint, keys_of, names_of, wired, Application, Bundle, Relation};

verus! {

/// A selection named applications that the bundle does not hold.
pub enum SelectionError {
    /// Every selected name that is not an application of the bundle, in the
    /// order they were given.
    UnknownApps(Vec<String>),
}

/// The names among `names` that are not in `keys`, in order.
pub open spec fn missing_from(names: Seq<Seq<char>>, keys: Set<Seq<char>>) -> Seq<Seq<char>> {
    names.filter(|n: Seq<char>| !keys.contains(n))
}

/// Whether an application named `n` stays under a selection: named by a
/// non-empty chosen list (an empty list keeps every name), and not excluded.
pub open spec fn keep_name(n: Seq<char>, chosen: Seq<Seq<char>>, exclude: Seq<Seq<char>>) -> bool {
    (chosen.len() == 0 || chosen.contains(n)) && !exclude.contains(n)
}

/// The applications that stay under a selection, in their order.
pub open spec fn kept_apps(
    apps: Seq<Application>,
    chosen: Seq<Seq<char>>,
    exclude: Seq<Seq<char>>,
) -> Seq<Application> {
    apps.filter(|a: Application| keep_name(a.name@, chosen, exclude))
}

/// The relations both of whose endpoints name an application in `keys`.
pub open spec fn kept_relations(rels: Seq<Relation>, keys: Set<Seq<char>>) -> Seq<Relation> {
    rels.filter(|r: Relation| wired(r, keys))
}

/// What a selection leaves of a bundle's applications and relations: all of
/// it when a chosen name is not an application, else the kept applications
/// and the relations between them.
pub open spec fn selection_result(
    apps: Seq<Application>,
    rels: Seq<Relation>,
    chosen: Seq<Seq<char>>,
    except: Seq<Seq<char>>,
) -> (Seq<Application>, Seq<Relation>) {
    if missing_from(chosen, keys_of(apps)).len() > 0 {
        (apps, rels)
    } else {
        let kept = kept_apps(apps, chosen, except);
        (kept, kept_relations(rels, keys_of(kept)))
    }
}

/// Whether `s` is one of `v`.
pub fn contains_text(v: &[String], s: &String) -> (r: bool)
    ensures
        r == texts(v@).contains(s@),
{
    let mut i: usize = 0;
    while i < v.len()
        invariant
            0 <= i <= v@.len(),
            forall|j: int| 0 <= j < i ==> v@[j]@ != s@,
        decreases v.len() - i,
    {
        if v[i] == *s {
            proof {
                assert(texts(v@)[i as int] == s@);
            }
            return true;
        }
        i = i + 1;
    }
    proof {
        if texts(v@).contains(s@) {
            let k = choose|k: int| 0 <= k < texts(v@).len() && texts(v@)[k] == s@;
            assert(v@[k]@ == s@);
        }
    }
    false
}

/// Checks that every name of `subset` is one of `superset`; if not, names
/// every entry of `subset` that is missing.
pub fn ensure_subset(subset: &[String], superset: &[String]) -> (r: Result<(), SelectionError>)
    ensures
        r is Ok <==> missing_from(texts(subset@), texts(superset@).to_set()).len() == 0,
        r matches Err(SelectionError::UnknownApps(m)) ==> texts(m@) == missing_from(
            texts(subset@),
            texts(superset@).to_set(),
        ),
{
    let ghost keys = texts(superset@).to_set();
    let ghost pred = |n: Seq<char>| !keys.contains(n);
    let mut missing: Vec<String> = Vec::new();
    let mut i: usize = 0;
    while i < subset.len()
        invariant
            0 <= i <= subset@.len(),
            keys == texts(superset@).to_set(),
            pred == (|n: Seq<char>| !keys.contains(n)),
            texts(missing@) == texts(subset@).subrange(0, i as int).filter(pred),
        decreases subset.len() - i,
    {
        let found = contains_text(superset, &subset[i]);
        proof {
            let done = texts(subset@).subrange(0, i as int);
            assert(texts(subset@).subrange(0, i + 1) == done.push(subset@[i as int]@));
            done.lemma_filter_push(subset@[i as int]@, pred);
        }
        if !found {
            missing.push(subset[i].clone());
            assert(texts(missing@) == texts(subset@).subrange(0, i as int).filter(pred).push(
                subset@[i as int]@,
            ));
        }
        i = i + 1;
    }
    assert(texts(subset@).subrange(0, subset@.len() as int) == texts(subset@));
    if missing.len() == 0 {
        Ok(())
    } else {
        Err(SelectionError::UnknownApps(missing))
    }
}

/// Filtering keeps a sequence whose every element passes.
pub proof fn lemma_filter_all<A>(s: Seq<A>, p: spec_fn(A) -> bool)
    requires
        forall|i: int| 0 <= i < s.len() ==> p(#[trigger] s[i]),
    ensures
        s.filter(p) == s,
    decreases s.len(),
{
    reveal(Seq::filter);
    if s.len() > 0 {
        lemma_filter_all(s.drop_last(), p);
        assert(s.drop_last().push(s.last()) =~= s);
    }
}

/// A filter leaves something exactly when some element passes.
pub proof fn lemma_filter_nonempty<A>(s: Seq<A>, p: spec_fn(A) -> bool)
    ensures
        s.filter(p).len() > 0 <==> exists|i: int| 0 <= i < s.len() && p(#[trigger] s[i]),
{
    if s.filter(p).len() > 0 {
        s.lemma_filter_pred(p, 0);
        s.lemma_filter_contains_rev(p, s.filter(p)[0]);
    }
    if exists|i: int| 0 <= i < s.len() && p(#[trigger] s[i]) {
        let i = choose|i: int| 0 <= i < s.len() && p(#[trigger] s[i]);
        s.lemma_filter_contains(p, i);
    }
}

/// Choosing a non-empty set of names with nothing excluded fails exactly
/// when some chosen name is not an application; otherwise the applications
/// left are those both chosen and present.
pub proof fn lemma_limit_keeps_selection(
    apps: Seq<Application>,
    rels: Seq<Relation>,
    chosen: Seq<Seq<char>>,
)
    requires
        chosen.len() > 0,
    ensures
        missing_from(chosen, keys_of(apps)).len() == 0 <==> chosen.to_set().subset_of(
            keys_of(apps),
        ),
        chosen.to_set().subset_of(keys_of(apps)) ==> keys_of(
            selection_result(apps, rels, chosen, Seq::empty()).0,
        ) == chosen.to_set().intersect(keys_of(apps)),
{
    let keys = keys_of(apps);
    let pm = |n: Seq<char>| !keys.contains(n);
    lemma_filter_nonempty(chosen, pm);
    if chosen.to_set().subset_of(keys) {
        assert forall|i: int| 0 <= i < chosen.len() implies !pm(#[trigger] chosen[i]) by {
            assert(chosen.to_set().contains(chosen[i]));
        }
        let none: Seq<Seq<char>> = Seq::empty();
        let pk = |a: Application| keep_name(a.name@, chosen, none);
        let kept = apps.filter(pk);
        assert forall|n: Seq<char>| keys_of(kept).contains(n) <==> chosen.to_set().intersect(
            keys,
        ).contains(n) by {
            if keys_of(kept).contains(n) {
                let i = choose|i: int| 0 <= i < names_of(kept).len() && names_of(kept)[i] == n;
                apps.lemma_filter_pred(pk, i);
                apps.lemma_filter_contains_rev(pk, kept[i]);
                let j = choose|j: int| 0 <= j < apps.len() && apps[j] == kept[i];
                assert(names_of(apps)[j] == n);
            }
            if chosen.to_set().intersect(keys).contains(n) {
                let j = choose|j: int| 0 <= j < names_of(apps).len() && names_of(apps)[j] == n;
                apps.lemma_filter_contains(pk, j);
                let i = choose|i: int| 0 <= i < kept.len() && kept[i] == apps[j];
                assert(names_of(kept)[i] == n);
            }
        }
        assert(keys_of(kept) =~= chosen.to_set().intersect(keys));
    } else {
        let n = choose|n: Seq<char>| chosen.to_set().contains(n) && !keys.contains(n);
        let i = choose|i: int| 0 <= i < chosen.len() && chosen[i] == n;
        assert(pm(chosen[i]));
    }
}

/// Applying the same selection twice leaves what applying it once leaves.
pub proof fn lemma_limit_idempotent(
    apps: Seq<Application>,
    rels: Seq<Relation>,
    chosen: Seq<Seq<char>>,
    except: Seq<Seq<char>>,
)
    ensures
        ({
            let once = selection_result(apps, rels, chosen, except);
            selection_result(once.0, once.1, chosen, except) == once
        }),
{
    let once = selection_result(apps, rels, chosen, except);
    if missing_from(chosen, keys_of(apps)).len() == 0 && missing_from(
        chosen,
        keys_of(once.0),
    ).len() == 0 {
        let pk = |a: Application| keep_name(a.name@, chosen, except);
        assert forall|i: int| 0 <= i < once.0.len() implies pk(#[trigger] once.0[i]) by {
            apps.lemma_filter_pred(pk, i);
        }
        lemma_filter_all(once.0, pk);
        let keys = keys_of(once.0);
        let pw = |r: Relation| wired(r, keys);
        assert forall|i: int| 0 <= i < once.1.len() implies pw(#[trigger] once.1[i]) by {
            rels.lemma_filter_pred(pw, i);
        }
        lemma_filter_all(once.1, pw);
    }
}

impl Bundle {
    /// Narrows the bundle to a selection. With a non-empty `chosen` list only
    /// those applications stay, else all of them; those in `except` are
    /// then removed too. A relation stays only where both of its endpoints
    /// still name an application. Fails, leaving the bundle as it was, when a
    /// chosen name is not an application of the bundle, naming every such
    /// entry.
    pub fn limit_apps(&mut self, chosen: &[String], except: &[String]) -> (r: Result<
        (),
        SelectionError,
    >)
        requires
            old(self).well_formed(),
        ensures
            r is Ok <==> missing_from(texts(chosen@), old(self).keys()).len() == 0,
            r matches Err(SelectionError::UnknownApps(m)) ==> texts(m@) == missing_from(
                texts(chosen@),
                old(self).keys(),
            ),
            (final(self).applications@, final(self).relations@) == selection_result(
                old(self).applications@,
                old(self).relations@,
                texts(chosen@),
                texts(except@),
            ),
            final(self).name == old(self).name,
            final(self).well_formed(),
            r is Ok ==> final(self).consistent(),
            old(self).consistent() ==> final(self).consistent(),
    {
        let names = self.app_names();
        match ensure_subset(chosen, names.as_slice()) {
            Err(e) => {
                return Err(e);
            },
            Ok(()) => {},
        }
        let ghost ch = texts(chosen@);
        let ghost ex = texts(except@);
        let ghost pred = |a: Application| keep_name(a.name@, ch, ex);
        let mut rest: Vec<Application> = Vec::new();
        std::mem::swap(&mut rest, &mut self.applications);
        let ghost orig = rest@;
        let ghost mut done: Seq<Application> = Seq::empty();
        let mut kept: Vec<Application> = Vec::new();
        assert(orig == done + rest@);
        while rest.len() > 0
            invariant
                orig == done + rest@,
                pred == (|a: Application| keep_name(a.name@, ch, ex)),
                ch == texts(chosen@),
                ex == texts(except@),
                kept@ == done.filter(pred),
                names_of(orig).no_duplicates(),
                names_of(kept@).no_duplicates(),
            decreases rest.len(),
        {
            let a = rest.remove(0);
            proof {
                done.lemma_filter_push(a, pred);
                assert(orig[done.len() as int] == a);
            }
            let keep = (chosen.len() == 0 || contains_text(chosen, &a.name)) && !contains_text(
                except,
                &a.name,
            );
            proof {
                if keep {
                    assert forall|k: int| 0 <= k < kept@.len() implies kept@[k].name@ != a.name@ by {
                        assert(done.filter(pred).contains(kept@[k]));
                        done.lemma_filter_contains_rev(pred, kept@[k]);
                        let j = choose|j: int| 0 <= j < done.len() && done[j] == kept@[k];
                        assert(names_of(orig)[j] == done[j].name@);
                        assert(names_of(orig)[done.len() as int] == a.name@);
                    }
                    assert(names_of(kept@.push(a)) =~= names_of(kept@).push(a.name@));
                }
                assert(orig == done.push(a) + rest@);
                done = done.push(a);
            }
            if keep {
                kept.push(a);
            }
        }
        assert(done == orig);
        self.applications = kept;
        let names = self.app_names();
        let ghost keys = self.keys();
        let ghost wpred = |r: Relation| wired(r, keys);
        let mut rest: Vec<Relation> = Vec::new();
        std::mem::swap(&mut rest, &mut self.relations);
        let ghost orig = rest@;
        let ghost mut done: Seq<Relation> = Seq::empty();
        let mut kept: Vec<Relation> = Vec::new();
        assert(orig == done + rest@);
        while rest.len() > 0
            invariant
                orig == done + rest@,
                keys == keys_of(self.applications@),
                texts(names@) == names_of(self.applications@),
                wpred == (|r: Relation| wired(r, keys)),
                kept@ == done.filter(wpred),
            decreases rest.len(),
        {
            let r = rest.remove(0);
            proof {
                done.lemma_filter_push(r, wpred);
                assert(orig == done.push(r) + rest@);
                done = done.push(r);
            }
            let from_app = app_of_endpoint(r.from.as_str());
            let to_app = app_of_endpoint(r.to.as_str());
            if contains_text(names.as_slice(), &from_app) && contains_text(names.as_slice(), &to_app) {
                kept.push(r);
            }
        }
        assert(done == orig);
        self.relations = kept;
        proof {
            assert forall|i: int| 0 <= i < self.relations@.len() implies #[trigger] wired(
                self.relations@[i],
                self.keys(),
            ) by {
                orig.lemma_filter_pred(wpred, i);
            }
        }
        Ok(())
    }
}

} // verus!
