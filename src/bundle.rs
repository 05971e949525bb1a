use vstd::prelude::*;

verus! {

/// Position of the first `:` in `e` at or after `i`, or `e.len()` if none.
pub open spec fn first_colon_from(e: Seq<char>, i: int) -> int
    decreases e.len() - i,
{
    if i < 0 || i >= e.len() {
        e.len() as int
    } else if e[i] == ':' {
        i
    } else {
        first_colon_from(e, i + 1)
    }
}

/// Position of the last `:` in `e` strictly before `i`, or `-1` if none.
pub open spec fn last_colon_before(e: Seq<char>, i: int) -> int
    decreases i,
{
    if i <= 0 || i > e.len() {
        -1
    } else if e[i - 1] == ':' {
        i - 1
    } else {
        last_colon_before(e, i - 1)
    }
}

/// The application named by a relation endpoint `"<app>[:<interface>]"`:
/// the text before the first `:`, or all of it.
pub open spec fn endpoint_app(e: Seq<char>) -> Seq<char> {
    e.subrange(0, first_colon_from(e, 0))
}

/// The interface of a relation endpoint: the text after the last `:`, or
/// the empty text when there is no `:`.
pub open spec fn endpoint_interface(e: Seq<char>) -> Seq<char> {
    let k = last_colon_before(e, e.len() as int);
    if k < 0 {
        Seq::empty()
    } else {
        e.subrange(k + 1, e.len() as int)
    }
}

/// Computes `endpoint_app` of an endpoint string.
pub fn app_of_endpoint(e: &str) -> (r: String)
    ensures
        r@ == endpoint_app(e@),
{
    let n = e.unicode_len();
    let mut i: usize = 0;
    while i < n
        invariant
            n == e@.len(),
            0 <= i <= n,
            first_colon_from(e@, 0) == first_colon_from(e@, i as int),
        ensures
            first_colon_from(e@, 0) == i,
        decreases n - i,
    {
        if e.get_char(i) == ':' {
            break;
        }
        i = i + 1;
    }
    e.substring_char(0, i).to_owned()
}

/// Computes `endpoint_interface` of an endpoint string.
pub fn interface_of_endpoint(e: &str) -> (r: String)
    ensures
        r@ == endpoint_interface(e@),
{
    let n = e.unicode_len();
    let mut i: usize = n;
    while i > 0
        invariant
            n == e@.len(),
            0 <= i <= n,
            last_colon_before(e@, n as int) == last_colon_before(e@, i as int),
        decreases i,
    {
        if e.get_char(i - 1) == ':' {
            return e.substring_char(i, n).to_owned();
        }
        i = i - 1;
    }
    String::new()
}

/// One application of a bundle.
pub struct Application {
    /// The application's name: its key in the bundle.
    pub name: String,
    /// The charm reference it deploys, if one is set.
    pub charm: Option<String>,
    /// The channel it is deployed from, if one is set.
    pub channel: Option<String>,
    /// Where its charm is built from, if it has a source.
    pub source: Option<String>,
    /// Resources handed to the publish step unchanged, as name and value.
    pub resources: Vec<(String, String)>,
}

impl Application {
    /// An application with only a name.
    pub fn new(name: String) -> (r: Application)
        ensures
            r.name == name,
            r.charm is None,
            r.channel is None,
            r.source is None,
            r.resources@.len() == 0,
    {
        Application { name, charm: None, channel: None, source: None, resources: Vec::new() }
    }
}

/// A relation between two endpoints `"<app>[:<interface>]"`.
pub struct Relation {
    pub from: String,
    pub to: String,
}

/// A bundle: applications keyed by name, and the relations between them.
pub struct Bundle {
    pub name: Option<String>,
    pub applications: Vec<Application>,
    pub relations: Vec<Relation>,
}

/// The texts of a sequence of strings.
pub open spec fn texts(v: Seq<String>) -> Seq<Seq<char>> {
    v.map_values(|s: String| s@)
}

/// The names of a sequence of applications, in order.
pub open spec fn names_of(apps: Seq<Application>) -> Seq<Seq<char>> {
    apps.map_values(|a: Application| a.name@)
}

/// The set of application names.
pub open spec fn keys_of(apps: Seq<Application>) -> Set<Seq<char>> {
    names_of(apps).to_set()
}

/// The position of `n` among `names`, where it occurs once.
pub open spec fn position_in(names: Seq<Seq<char>>, n: Seq<char>) -> int {
    choose|i: int| 0 <= i < names.len() && names[i] == n
}

/// `position_in` finds an entry of a sequence without repeats.
pub proof fn lemma_position_in(names: Seq<Seq<char>>, i: int)
    requires
        names.no_duplicates(),
        0 <= i < names.len(),
    ensures
        position_in(names, names[i]) == i,
{
    let k = position_in(names, names[i]);
}

/// Both endpoints of `r` name an application in `keys`.
pub open spec fn wired(r: Relation, keys: Set<Seq<char>>) -> bool {
    keys.contains(endpoint_app(r.from@)) && keys.contains(endpoint_app(r.to@))
}

/// Every relation endpoint names an application in `keys`.
pub open spec fn all_wired(rels: Seq<Relation>, keys: Set<Seq<char>>) -> bool {
    forall|i: int| 0 <= i < rels.len() ==> #[trigger] wired(rels[i], keys)
}

impl Bundle {
    /// Application names are unique: the applications form a mapping.
    pub open spec fn well_formed(&self) -> bool {
        names_of(self.applications@).no_duplicates()
    }

    pub open spec fn keys(&self) -> Set<Seq<char>> {
        keys_of(self.applications@)
    }

    /// The names of the applications, in order.
    pub fn app_names(&self) -> (r: Vec<String>)
        ensures
            texts(r@) == names_of(self.applications@),
    {
        let mut r: Vec<String> = Vec::new();
        let mut i: usize = 0;
        while i < self.applications.len()
            invariant
                0 <= i <= self.applications@.len(),
                texts(r@) == names_of(self.applications@).subrange(0, i as int),
            decreases self.applications.len() - i,
        {
            r.push(self.applications[i].name.clone());
            assert(names_of(self.applications@).subrange(0, i + 1) == names_of(
                self.applications@,
            ).subrange(0, i as int).push(self.applications@[i as int].name@));
            i = i + 1;
        }
        assert(names_of(self.applications@).subrange(0, i as int) == names_of(self.applications@));
        r
    }

    /// No relation endpoint refers to an application the bundle lacks.
    pub open spec fn consistent(&self) -> bool {
        all_wired(self.relations@, self.keys())
    }

    /// An empty bundle.
    pub fn new(name: Option<String>) -> (r: Bundle)
        ensures
            r.name == name,
            r.applications@.len() == 0,
            r.relations@.len() == 0,
            r.well_formed(),
            r.consistent(),
    {
        let r = Bundle { name, applications: Vec::new(), relations: Vec::new() };
        assert(names_of(r.applications@) =~= Seq::<Seq<char>>::empty());
        r
    }

    /// Whether an application is named `name`.
    pub fn has_app(&self, name: &String) -> (r: bool)
        ensures
            r == self.keys().contains(name@),
    {
        let mut i: usize = 0;
        while i < self.applications.len()
            invariant
                0 <= i <= self.applications@.len(),
                forall|k: int| 0 <= k < i ==> (#[trigger] self.applications@[k]).name@ != name@,
            decreases self.applications.len() - i,
        {
            if self.applications[i].name == *name {
                assert(names_of(self.applications@)[i as int] == name@);
                return true;
            }
            i = i + 1;
        }
        proof {
            if self.keys().contains(name@) {
                let k = choose|k: int|
                    0 <= k < names_of(self.applications@).len() && names_of(
                        self.applications@,
                    )[k] == name@;
                assert(self.applications@[k].name@ == name@);
            }
        }
        false
    }

    /// Adds an application, unless one of that name is there already; says
    /// whether it did.
    pub fn add_application(&mut self, app: Application) -> (r: bool)
        requires
            old(self).well_formed(),
        ensures
            r == !old(self).keys().contains(app.name@),
            r ==> final(self).applications@ == old(self).applications@.push(app),
            !r ==> final(self).applications@ == old(self).applications@,
            final(self).relations == old(self).relations,
            final(self).name == old(self).name,
            final(self).well_formed(),
    {
        if self.has_app(&app.name) {
            return false;
        }
        let ghost before = self.applications@;
        self.applications.push(app);
        proof {
            assert(names_of(self.applications@) =~= names_of(before).push(app.name@));
        }
        true
    }

    /// Adds a relation between two endpoints.
    pub fn add_relation(&mut self, from: String, to: String)
        ensures
            final(self).relations@ == old(self).relations@.push(Relation { from, to }),
            final(self).applications == old(self).applications,
            final(self).name == old(self).name,
    {
        self.relations.push(Relation { from, to });
    }

    /// Whether no relation endpoint refers to an application the bundle
    /// lacks, as loading a bundle checks.
    pub fn check_consistency(&self) -> (r: bool)
        ensures
            r == self.consistent(),
    {
        let mut i: usize = 0;
        while i < self.relations.len()
            invariant
                0 <= i <= self.relations@.len(),
                forall|k: int| 0 <= k < i ==> #[trigger] wired(self.relations@[k], self.keys()),
            decreases self.relations.len() - i,
        {
            let r = &self.relations[i];
            let a = app_of_endpoint(r.from.as_str());
            let b = app_of_endpoint(r.to.as_str());
            if !self.has_app(&a) || !self.has_app(&b) {
                assert(!wired(self.relations@[i as int], self.keys()));
                return false;
            }
            i = i + 1;
        }
        true
    }
}

} // verus!
