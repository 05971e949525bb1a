use vstd::prelude::*;
use crate::bundle::{lemma_position_in, names_of, position_in, Application, Bundle};
use crate::charm::{lemma_url_text_injective, url_text, url_valid, CharmUrl, CharmUrlError, UrlView};
use crate::text::{chars_equal, chars_of, string_from_chars};

verus! {

/// A release channel, from least to most stable.
#[derive(Clone, Copy, PartialEq, Eq, Structural)]
pub enum Channel {
    Edge,
    Beta,
    Candidate,
    Stable,
}

/// The place of a channel in the promotion order.
pub open spec fn channel_rank(c: Channel) -> nat {
    match c {
        Channel::Edge => 0,
        Channel::Beta => 1,
        Channel::Candidate => 2,
        Channel::Stable => 3,
    }
}

/// How a channel is written.
pub open spec fn channel_text(c: Channel) -> Seq<char> {
    match c {
        Channel::Edge => seq!['e', 'd', 'g', 'e'],
        Channel::Beta => seq!['b', 'e', 't', 'a'],
        Channel::Candidate => seq!['c', 'a', 'n', 'd', 'i', 'd', 'a', 't', 'e'],
        Channel::Stable => seq!['s', 't', 'a', 'b', 'l', 'e'],
    }
}

/// The channel written `t`, if any.
pub open spec fn channel_named(t: Seq<char>) -> Option<Channel> {
    if exists|c: Channel| channel_text(c) == t {
        Some(choose|c: Channel| channel_text(c) == t)
    } else {
        None
    }
}

proof fn lemma_channel_text_injective(a: Channel, b: Channel)
    requires
        channel_text(a) == channel_text(b),
    ensures
        a == b,
{
    assert(channel_text(a).len() == channel_text(b).len());
    if channel_text(a).len() == 4 {
        assert(channel_text(a)[0] == channel_text(b)[0]);
    }
}

impl Channel {
    /// The place of the channel in the promotion order.
    pub fn rank(&self) -> (r: u8)
        ensures
            r == channel_rank(*self),
    {
        match self {
            Channel::Edge => 0,
            Channel::Beta => 1,
            Channel::Candidate => 2,
            Channel::Stable => 3,
        }
    }

    /// Whether this channel comes before `other` in the promotion order.
    pub fn precedes(&self, other: &Channel) -> (r: bool)
        ensures
            r == (channel_rank(*self) < channel_rank(*other)),
    {
        self.rank() < other.rank()
    }

    /// Reads a channel name.
    pub fn parse(s: &str) -> (r: Option<Channel>)
        ensures
            r == channel_named(s@),
    {
        let t = chars_of(s);
        proof {
            reveal_strlit("edge");
            reveal_strlit("beta");
            reveal_strlit("candidate");
            reveal_strlit("stable");
            assert("edge"@ =~= channel_text(Channel::Edge));
            assert("beta"@ =~= channel_text(Channel::Beta));
            assert("candidate"@ =~= channel_text(Channel::Candidate));
            assert("stable"@ =~= channel_text(Channel::Stable));
        }
        let r = if chars_equal(&t, "edge") {
            Some(Channel::Edge)
        } else if chars_equal(&t, "beta") {
            Some(Channel::Beta)
        } else if chars_equal(&t, "candidate") {
            Some(Channel::Candidate)
        } else if chars_equal(&t, "stable") {
            Some(Channel::Stable)
        } else {
            None
        };
        proof {
            match r {
                Some(c) => {
                    assert(channel_text(c) == s@);
                    let d = choose|d: Channel| channel_text(d) == s@;
                    lemma_channel_text_injective(c, d);
                },
                None => {
                    assert forall|c: Channel| channel_text(c) != s@ by {
                        match c {
                            Channel::Edge => {},
                            Channel::Beta => {},
                            Channel::Candidate => {},
                            Channel::Stable => {},
                        }
                    }
                },
            }
        }
        r
    }

    /// The channel's name.
    pub fn label(&self) -> (r: String)
        ensures
            r@ == channel_text(*self),
    {
        let mut v: Vec<char> = Vec::new();
        match self {
            Channel::Edge => {
                v.push('e');
                v.push('d');
                v.push('g');
                v.push('e');
            },
            Channel::Beta => {
                v.push('b');
                v.push('e');
                v.push('t');
                v.push('a');
            },
            Channel::Candidate => {
                v.push('c');
                v.push('a');
                v.push('n');
                v.push('d');
                v.push('i');
                v.push('d');
                v.push('a');
                v.push('t');
                v.push('e');
            },
            Channel::Stable => {
                v.push('s');
                v.push('t');
                v.push('a');
                v.push('b');
                v.push('l');
                v.push('e');
            },
        }
        assert(v@ =~= channel_text(*self));
        string_from_chars(v)
    }
}

/// The text `t` is that of a valid charm reference.
pub open spec fn charm_parses(t: Seq<char>) -> bool {
    exists|u: UrlView| url_valid(u) && url_text(u) == t
}

/// The reference whose text is `t`, where `charm_parses(t)`.
pub open spec fn parsed_url(t: Seq<char>) -> UrlView {
    choose|u: UrlView| url_valid(u) && url_text(u) == t
}

/// What resolving an application's charm reference takes.
#[derive(PartialEq, Eq, Structural)]
pub enum Action {
    /// The reference is pinned to a revision already: keep it.
    Keep,
    /// Ask the store for the latest revision on this channel and pin it.
    QueryLatest(Channel),
    /// Build from source, upload, and release to this channel.
    Build(Channel),
}

/// Why an application's charm reference cannot be resolved.
#[derive(PartialEq, Eq, Structural)]
pub enum ResolveError {
    /// Neither a source nor a charm reference.
    MissingCharmReference,
    /// A charm reference that does not parse.
    InvalidCharm,
    /// A channel that is not one of the known channels.
    InvalidChannel,
}

/// The decision for one application: build what has a source (released to
/// `target`, else `edge`); otherwise keep a pinned reference, or look up the
/// latest revision on the application's channel (else `stable`).
pub open spec fn action_for(app: Application, target: Option<Channel>) -> Result<
    Action,
    ResolveError,
> {
    if app.source is Some {
        Ok(
            Action::Build(
                match target {
                    Some(c) => c,
                    None => Channel::Edge,
                },
            ),
        )
    } else {
        match app.charm {
            None => Err(ResolveError::MissingCharmReference),
            Some(c) => {
                if !charm_parses(c@) {
                    Err(ResolveError::InvalidCharm)
                } else if parsed_url(c@).3 is Some {
                    Ok(Action::Keep)
                } else {
                    match app.channel {
                        None => Ok(Action::QueryLatest(Channel::Stable)),
                        Some(ch) => match channel_named(ch@) {
                            Some(k) => Ok(Action::QueryLatest(k)),
                            None => Err(ResolveError::InvalidChannel),
                        },
                    }
                }
            },
        }
    }
}

/// `CharmUrl::parse` gives the reference `parsed_url` names.
proof fn lemma_parsed(u: CharmUrl, t: Seq<char>)
    requires
        url_valid(u@),
        url_text(u@) == t,
    ensures
        charm_parses(t),
        parsed_url(t) == u@,
{
    let w = parsed_url(t);
    lemma_url_text_injective(u@, w);
}

/// Decides how to resolve one application's charm reference.
pub fn resolve_action(app: &Application, target: Option<Channel>) -> (r: Result<
    Action,
    ResolveError,
>)
    ensures
        r == action_for(*app, target),
{
    if app.source.is_some() {
        return Ok(
            Action::Build(
                match target {
                    Some(c) => c,
                    None => Channel::Edge,
                },
            ),
        );
    }
    match &app.charm {
        None => Err(ResolveError::MissingCharmReference),
        Some(c) => match CharmUrl::parse(c.as_str()) {
            Err(_) => Err(ResolveError::InvalidCharm),
            Ok(u) => {
                proof {
                    lemma_parsed(u, c@);
                }
                if u.revision.is_some() {
                    Ok(Action::Keep)
                } else {
                    match &app.channel {
                        None => Ok(Action::QueryLatest(Channel::Stable)),
                        Some(ch) => match Channel::parse(ch.as_str()) {
                            Some(k) => Ok(Action::QueryLatest(k)),
                            None => Err(ResolveError::InvalidChannel),
                        },
                    }
                }
            },
        },
    }
}

/// The application named `n`, where it is one of `apps`.
pub open spec fn app_named(apps: Seq<Application>, n: Seq<char>) -> Application {
    apps[position_in(names_of(apps), n)]
}

impl Bundle {
    /// Decides, for each named application in turn, how to resolve its charm
    /// reference, before any work is dispatched. Fails on the first
    /// application that cannot be resolved, with its name.
    pub fn resolve_apps(&self, names: &[String], target: Option<Channel>) -> (r: Result<
        Vec<Action>,
        (String, ResolveError),
    >)
        requires
            self.well_formed(),
            forall|i: int| 0 <= i < names@.len() ==> self.keys().contains(#[trigger] names@[i]@),
        ensures
            r matches Ok(v) ==> v@.len() == names@.len() && forall|i: int|
                0 <= i < v@.len() ==> Ok::<Action, ResolveError>(#[trigger] v@[i]) == action_for(
                    app_named(self.applications@, names@[i]@),
                    target,
                ),
            r matches Err((n, e)) ==> exists|i: int|
                0 <= i < names@.len() && n@ == names@[i]@ && action_for(
                    app_named(self.applications@, names@[i]@),
                    target,
                ) == Err::<Action, ResolveError>(e) && forall|k: int|
                    0 <= k < i ==> (#[trigger] action_for(
                        app_named(self.applications@, names@[k]@),
                        target,
                    )) is Ok,
    {
        let mut actions: Vec<Action> = Vec::new();
        let mut i: usize = 0;
        while i < names.len()
            invariant
                self.well_formed(),
                forall|j: int| 0 <= j < names@.len() ==> self.keys().contains(#[trigger] names@[j]@),
                0 <= i <= names@.len(),
                actions@.len() == i,
                forall|k: int|
                    0 <= k < i ==> Ok::<Action, ResolveError>(#[trigger] actions@[k]) == action_for(
                        app_named(self.applications@, names@[k]@),
                        target,
                    ),
            decreases names.len() - i,
        {
            assert(self.keys().contains(names@[i as int]@));
            match self.position_of(&names[i]) {
                None => {
                    // Every name is an application of the bundle.
                    assert(false);
                    return Err((names[i].clone(), ResolveError::MissingCharmReference));
                },
                Some(p) => {
                    proof {
                        assert(names_of(self.applications@)[p as int] == names@[i as int]@);
                        lemma_position_in(names_of(self.applications@), p as int);
                    }
                    match resolve_action(&self.applications[p], target) {
                        Ok(a) => {
                            actions.push(a);
                        },
                        Err(e) => {
                            proof {
                                assert forall|k: int| 0 <= k < i implies (#[trigger] action_for(
                                    app_named(self.applications@, names@[k]@),
                                    target,
                                )) is Ok by {
                                    assert(Ok::<Action, ResolveError>(actions@[k]) == action_for(
                                        app_named(self.applications@, names@[k]@),
                                        target,
                                    ));
                                }
                            }
                            return Err((names[i].clone(), e));
                        },
                    }
                },
            }
            i = i + 1;
        }
        Ok(actions)
    }
}

/// The text of the reference written `t`, pinned to `revision`.
pub open spec fn pinned_text(t: Seq<char>, revision: u64) -> Seq<char> {
    let u = parsed_url(t);
    url_text((u.0, u.1, u.2, Some(revision)))
}

/// Pins the charm reference written `charm` to the revision the store
/// reported. Fails exactly when `charm` is not a valid reference.
pub fn pin_revision(charm: &str, revision: u64) -> (r: Result<String, CharmUrlError>)
    ensures
        r is Ok <==> charm_parses(charm@),
        r matches Ok(t) ==> t@ == pinned_text(charm@, revision),
{
    match CharmUrl::parse(charm) {
        Err(e) => Err(e),
        Ok(u) => {
            proof {
                lemma_parsed(u, charm@);
            }
            let pinned = CharmUrl {
                store: u.store,
                namespace: u.namespace,
                name: u.name,
                revision: Some(revision),
            };
            Ok(pinned.to_text())
        },
    }
}

/// An application as the pinned copy of a bundle holds it: one built from
/// source now follows `channel` and has no source.
pub open spec fn pinned_app(a: Application, channel: String) -> Application {
    if a.source is Some {
        Application { channel: Some(channel), source: None, ..a }
    } else {
        a
    }
}

impl Bundle {
    /// Turns the bundle into its copy for release on `channel`: every
    /// application built from source follows the channel and loses its
    /// source, so that the store's revision on that channel is deployed.
    pub fn pin_to_channel(&mut self, channel: &String)
        ensures
            final(self).applications@ == old(self).applications@.map_values(
                |a: Application| pinned_app(a, *channel),
            ),
            final(self).relations == old(self).relations,
            final(self).name == old(self).name,
    {
        let mut rest: Vec<Application> = Vec::new();
        std::mem::swap(&mut rest, &mut self.applications);
        let ghost orig = rest@;
        let ghost mut done: Seq<Application> = Seq::empty();
        let mut out: Vec<Application> = Vec::new();
        assert(orig == done + rest@);
        while rest.len() > 0
            invariant
                orig == done + rest@,
                out@ == done.map_values(|a: Application| pinned_app(a, *channel)),
            decreases rest.len(),
        {
            let mut a = rest.remove(0);
            let ghost a0 = a;
            if a.source.is_some() {
                a.channel = Some(channel.clone());
                a.source = None;
            }
            proof {
                assert(done.push(a0).map_values(|a: Application| pinned_app(a, *channel)) =~= out@.push(a));
                assert(orig == done.push(a0) + rest@);
                done = done.push(a0);
            }
            out.push(a);
        }
        assert(done == orig);
        self.applications = out;
    }
}

} // verus!
