use vstd::prelude::*;
use crate::decimal::{decimal, lemma_decimal, lemma_canonical, parse_decimal, push_decimal};
use crate::text::{chars_of, find_from, first_from, lemma_first_from, push_str, string_from_chars, string_of};

verus! {

/// The store a charm is published to.
#[derive(Clone, Copy, PartialEq, Eq, Structural)]
pub enum Store {
    /// The charm store, written `cs`.
    CharmStore,
    /// Charmhub, written `ch`.
    CharmHub,
}

/// How a store is written in a charm reference.
pub open spec fn store_text(s: Store) -> Seq<char> {
    match s {
        Store::CharmStore => seq!['c', 's'],
        Store::CharmHub => seq!['c', 'h'],
    }
}

/// A charm reference `<store>:[~<namespace>/]<name>[/<revision>]`.
pub struct CharmUrl {
    pub store: Store,
    pub namespace: Option<String>,
    pub name: String,
    pub revision: Option<u64>,
}

/// A charm reference as plain values: store, namespace, name, revision.
pub type UrlView = (Store, Option<Seq<char>>, Seq<char>, Option<u64>);

pub open spec fn opt_text(o: Option<String>) -> Option<Seq<char>> {
    match o {
        Some(s) => Some(s@),
        None => None,
    }
}

impl View for CharmUrl {
    type V = UrlView;

    open spec fn view(&self) -> UrlView {
        (self.store, opt_text(self.namespace), self.name@, self.revision)
    }
}

/// A non-empty segment without the separators `:`, `/` and `~`.
pub open spec fn plain_segment(t: Seq<char>) -> bool {
    &&& t.len() > 0
    &&& forall|i: int| 0 <= i < t.len() ==> #[trigger] t[i] != ':' && t[i] != '/' && t[i] != '~'
}

/// A reference whose name, and namespace if any, are plain segments.
pub open spec fn url_valid(u: UrlView) -> bool {
    &&& plain_segment(u.2)
    &&& (u.1 matches Some(ns) ==> plain_segment(ns))
}

pub open spec fn namespace_part(ns: Option<Seq<char>>) -> Seq<char> {
    match ns {
        Some(n) => seq!['~'] + n + seq!['/'],
        None => Seq::empty(),
    }
}

pub open spec fn revision_part(r: Option<u64>) -> Seq<char> {
    match r {
        Some(n) => seq!['/'] + decimal(n as nat),
        None => Seq::empty(),
    }
}

/// The text of a charm reference.
pub open spec fn url_text(u: UrlView) -> Seq<char> {
    store_text(u.0) + seq![':'] + namespace_part(u.1) + u.2 + revision_part(u.3)
}

/// The text before the name: store, `:`, and the namespace if any.
pub open spec fn head_text(store: Store, ns: Option<Seq<char>>) -> Seq<char> {
    store_text(store) + seq![':'] + namespace_part(ns)
}

/// The text from the name on: name, and the revision if any.
pub open spec fn tail_text(name: Seq<char>, rev: Option<u64>) -> Seq<char> {
    name + revision_part(rev)
}

proof fn lemma_url_split(u: UrlView)
    ensures
        url_text(u) == head_text(u.0, u.1) + tail_text(u.2, u.3),
{
    assert(url_text(u) =~= head_text(u.0, u.1) + tail_text(u.2, u.3));
}

/// How the text of a valid reference begins.
proof fn lemma_head_shape(u: UrlView)
    requires
        url_valid(u),
    ensures
        ({
            let t = url_text(u);
            let p = head_text(u.0, u.1).len() as int;
            &&& t.len() > p >= 3
            &&& t[0] == 'c'
            &&& t[1] == store_text(u.0)[1]
            &&& t[2] == ':'
            &&& (u.1 is Some) == (t[3] == '~')
            &&& (u.1 matches Some(ns) ==> first_from(t, '/', 4) == 4 + ns.len() as int
                && t.subrange(4, 4 + ns.len() as int) == ns && p == 5 + ns.len())
            &&& (u.1 is None ==> p == 3)
            &&& t.subrange(p, t.len() as int) == tail_text(u.2, u.3)
        }),
{
    let t = url_text(u);
    lemma_url_split(u);
    let h = head_text(u.0, u.1);
    assert(t.subrange(h.len() as int, t.len() as int) =~= tail_text(u.2, u.3));
    assert(t[h.len() as int] == u.2[0]);
    match u.1 {
        Some(ns) => {
            assert(t.subrange(4, 4 + ns.len() as int) =~= ns);
            assert(t[4 + ns.len() as int] == '/');
            assert forall|k: int| 4 <= k < 4 + ns.len() implies t[k] != '/' by {
                assert(t[k] == ns[k - 4]);
            }
            lemma_first_from(t, '/', 4, 4 + ns.len() as int);
        },
        None => {},
    }
}

/// How the text from the name on is laid out.
proof fn lemma_tail_shape(name: Seq<char>, rev: Option<u64>)
    requires
        plain_segment(name),
    ensures
        ({
            let t = tail_text(name, rev);
            &&& first_from(t, '/', 0) == name.len()
            &&& t.subrange(0, name.len() as int) == name
            &&& (rev is None ==> t.len() == name.len())
            &&& (rev matches Some(n) ==> t.len() > name.len() && t.subrange(
                name.len() as int + 1,
                t.len() as int,
            ) == decimal(n as nat))
        }),
{
    let t = tail_text(name, rev);
    assert(t.subrange(0, name.len() as int) =~= name);
    assert forall|k: int| 0 <= k < name.len() implies t[k] != '/' by {
        assert(t[k] == name[k]);
    }
    match rev {
        Some(n) => {
            assert(t[name.len() as int] == '/');
            assert(t.subrange(name.len() as int + 1, t.len() as int) =~= decimal(n as nat));
        },
        None => {},
    }
    lemma_first_from(t, '/', 0, name.len() as int);
}

/// Two valid references with one text are one reference: a reference is
/// read back from its text unchanged.
pub proof fn lemma_url_text_injective(u: UrlView, v: UrlView)
    requires
        url_valid(u),
        url_valid(v),
        url_text(u) == url_text(v),
    ensures
        u == v,
{
    lemma_head_shape(u);
    lemma_head_shape(v);
    assert(u.0 == v.0);
    assert(u.1 == v.1);
    let t = url_text(u);
    let p = head_text(u.0, u.1).len() as int;
    lemma_tail_shape(u.2, u.3);
    lemma_tail_shape(v.2, v.3);
    assert(u.2 == v.2);
    match (u.3, v.3) {
        (Some(a), Some(b)) => {
            lemma_decimal(a as nat);
            lemma_decimal(b as nat);
        },
        _ => {},
    }
}

/// A text that is not a valid charm reference.
pub enum CharmUrlError {
    Malformed,
}

impl CharmUrl {
    /// The text of the reference.
    pub fn to_text(&self) -> (r: String)
        ensures
            r@ == url_text(self@),
    {
        let mut out: Vec<char> = Vec::new();
        out.push('c');
        match self.store {
            Store::CharmStore => out.push('s'),
            Store::CharmHub => out.push('h'),
        }
        out.push(':');
        assert(out@ == store_text(self.store) + seq![':']);
        match &self.namespace {
            Some(ns) => {
                out.push('~');
                push_str(&mut out, ns.as_str());
                out.push('/');
            },
            None => {},
        }
        assert(out@ =~= store_text(self.store) + seq![':'] + namespace_part(self@.1));
        push_str(&mut out, self.name.as_str());
        match self.revision {
            Some(n) => {
                out.push('/');
                push_decimal(&mut out, n);
            },
            None => {},
        }
        assert(out@ =~= url_text(self@));
        string_from_chars(out)
    }

    /// Reads a charm reference. Fails exactly when the text is not that of a
    /// valid reference.
    pub fn parse(s: &str) -> (r: Result<CharmUrl, CharmUrlError>)
        ensures
            r matches Ok(u) ==> url_valid(u@) && url_text(u@) == s@,
            r is Err ==> !exists|u: UrlView| url_valid(u) && url_text(u) == s@,
    {
        let t = chars_of(s);
        let (store, namespace, p) = match parse_head(&t) {
            Some(h) => h,
            None => {
                return Err(CharmUrlError::Malformed);
            },
        };
        let rest = sub_chars(&t, p, t.len());
        let (name, revision) = match parse_tail(&rest) {
            Some(tl) => tl,
            None => {
                proof {
                    if exists|u: UrlView| url_valid(u) && url_text(u) == s@ {
                        let u = choose|u: UrlView| url_valid(u) && url_text(u) == s@;
                        lemma_head_shape(u);
                        assert(rest@ == tail_text(u.2, u.3));
                    }
                }
                return Err(CharmUrlError::Malformed);
            },
        };
        let u = CharmUrl { store, namespace, name, revision };
        proof {
            lemma_url_split(u@);
            assert(t@ =~= t@.subrange(0, p as int) + rest@);
        }
        Ok(u)
    }
}

/// The characters `t[from..to]`.
fn sub_chars(t: &Vec<char>, from: usize, to: usize) -> (r: Vec<char>)
    requires
        from <= to <= t@.len(),
    ensures
        r@ == t@.subrange(from as int, to as int),
{
    let mut v: Vec<char> = Vec::new();
    let mut i: usize = from;
    while i < to
        invariant
            from <= i <= to <= t@.len(),
            v@ == t@.subrange(from as int, i as int),
        decreases to - i,
    {
        v.push(t[i]);
        assert(t@.subrange(from as int, i + 1) == t@.subrange(from as int, i as int).push(
            t@[i as int],
        ));
        i = i + 1;
    }
    v
}

/// Reads the store and namespace of a reference, and where its name starts.
fn parse_head(t: &Vec<char>) -> (r: Option<(Store, Option<String>, usize)>)
    ensures
        r matches Some((st, ns, p)) ==> p <= t@.len() && t@.subrange(0, p as int) == head_text(
            st,
            opt_text(ns),
        ) && (opt_text(ns) matches Some(n) ==> plain_segment(n)) && forall|u: UrlView|
            url_valid(u) && #[trigger] url_text(u) == t@ ==> u.0 == st && u.1 == opt_text(ns),
        r is None ==> !exists|u: UrlView| url_valid(u) && url_text(u) == t@,
{
    let ghost ok = exists|u: UrlView| url_valid(u) && url_text(u) == t@;
    let ghost w = choose|u: UrlView| url_valid(u) && url_text(u) == t@;
    proof {
        if ok {
            lemma_head_shape(w);
        }
    }
    let n = t.len();
    if n < 4 || t[0] != 'c' || t[2] != ':' {
        return None;
    }
    let store = if t[1] == 's' {
        Store::CharmStore
    } else if t[1] == 'h' {
        Store::CharmHub
    } else {
        return None;
    };
    assert(t@.subrange(0, 3) =~= store_text(store) + seq![':']);
    if t[3] == '~' {
        let j = find_from(t, '/', 4);
        if j == n || !plain_range(t, 4, j) {
            return None;
        }
        let ns = string_of(t, 4, j);
        assert(t@.subrange(0, j + 1) =~= head_text(store, opt_text(Some(ns))));
        proof {
            assert forall|u: UrlView| url_valid(u) && #[trigger] url_text(u) == t@ implies u.0
                == store && u.1 == opt_text(Some(ns)) by {
                lemma_head_shape(u);
            }
        }
        Some((store, Some(ns), j + 1))
    } else {
        assert(t@.subrange(0, 3) =~= head_text(store, None));
        proof {
            assert forall|u: UrlView| url_valid(u) && #[trigger] url_text(u) == t@ implies u.0
                == store && u.1 == opt_text(None) by {
                lemma_head_shape(u);
            }
        }
        Some((store, None, 3))
    }
}

/// Reads the name and revision from the text that follows the head.
fn parse_tail(t: &Vec<char>) -> (r: Option<(String, Option<u64>)>)
    ensures
        r matches Some((name, rev)) ==> plain_segment(name@) && t@ == tail_text(name@, rev),
        r is None ==> !exists|name: Seq<char>, rev: Option<u64>|
            plain_segment(name) && t@ == tail_text(name, rev),
{
    let ghost ok = exists|name: Seq<char>, rev: Option<u64>|
        plain_segment(name) && t@ == tail_text(name, rev);
    let ghost wn = choose|name: Seq<char>, rev: Option<u64>|
        plain_segment(name) && t@ == tail_text(name, rev);
    proof {
        if ok {
            lemma_tail_shape(wn.0, wn.1);
        }
    }
    let n = t.len();
    let k = find_from(t, '/', 0);
    if !plain_range(t, 0, k) {
        return None;
    }
    let name = string_of(t, 0, k);
    if k == n {
        assert(t@ =~= tail_text(name@, None));
        return Some((name, None));
    }
    match parse_decimal(t, k + 1, n) {
        Some(v) => {
            proof {
                lemma_canonical(t@.subrange(k + 1, n as int));
                assert(t@ =~= tail_text(name@, Some(v)));
            }
            Some((name, Some(v)))
        },
        None => {
            proof {
                if ok {
                    lemma_decimal(wn.1->Some_0 as nat);
                }
            }
            None
        },
    }
}

/// Whether `t[from..to]` is a plain segment.
fn plain_range(t: &Vec<char>, from: usize, to: usize) -> (r: bool)
    requires
        from <= to <= t@.len(),
    ensures
        r == plain_segment(t@.subrange(from as int, to as int)),
{
    if from == to {
        return false;
    }
    let mut i: usize = from;
    while i < to
        invariant
            from <= i <= to <= t@.len(),
            forall|k: int| from <= k < i ==> #[trigger] t@[k] != ':' && t@[k] != '/' && t@[k] != '~',
        decreases to - i,
    {
        let c = t[i];
        if c == ':' || c == '/' || c == '~' {
            assert(t@.subrange(from as int, to as int)[i - from] == c);
            return false;
        }
        i = i + 1;
    }
    assert forall|k: int| 0 <= k < to - from implies #[trigger] t@.subrange(from as int, to as int)[k] != ':'
        && t@.subrange(from as int, to as int)[k] != '/' && t@.subrange(from as int, to as int)[k] != '~' by {
        assert(t@.subrange(from as int, to as int)[k] == t@[from + k]);
    }
    true
}

} // verus!
